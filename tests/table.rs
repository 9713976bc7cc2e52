use dsv::{Dsv, Error, Lexer, Options, Quotes, Token};

fn rows(dsv: &Dsv) -> Vec<Vec<String>> {
    dsv.records.clone()
}

fn table(fields: &[&[&str]]) -> Vec<Vec<String>> {
    fields
        .iter()
        .map(|r| r.iter().map(|f| f.to_string()).collect())
        .collect()
}

fn with_delimiter(delimiter: u8) -> Options {
    Options {
        delimiter,
        ..Default::default()
    }
}

fn write_field(f: &str, d: char) -> String {
    if f.contains(d) || f.contains('\n') || f.contains('"') {
        format!("\"{}\"", f.replace('"', "\"\""))
    } else {
        f.to_string()
    }
}

fn write_table(t: &[Vec<String>], d: char) -> String {
    t.iter()
        .map(|r| {
            r.iter()
                .map(|f| write_field(f, d))
                .collect::<Vec<_>>()
                .join(&d.to_string())
        })
        .collect::<Vec<_>>()
        .join("\n")
}

#[test]
fn default_options() {
    let options = Options::default();
    assert_eq!(options.delimiter, b',');
    assert_eq!(options.quotes, Quotes::Significant);
}

#[test]
fn every_record_has_the_first_field_count() {
    let dsv = Dsv::from_str("a,b,c\n1,2,3\n,y,\n\"p,q\",r,s").unwrap();
    assert_eq!(dsv.records.len(), 4);
    for record in &dsv.records {
        assert_eq!(record.len(), 3);
    }
}

#[test]
fn round_trip_with_minimal_quoting() {
    let original = table(&[
        &["plain", "with,comma", "say \"hi\""],
        &["two\nlines", "", "x"],
        &["", "lead", "\"\""],
    ]);
    let text = write_table(&original, ',');
    assert_eq!(
        text,
        "plain,\"with,comma\",\"say \"\"hi\"\"\"\n\"two\nlines\",,x\n,lead,\"\"\"\"\"\""
    );
    let dsv = Dsv::from_str(&text).unwrap();
    assert_eq!(rows(&dsv), original);
}

#[test]
fn round_trip_with_semicolon() {
    let original = table(&[&["a;b", "2,5"], &["c", "d;"]]);
    let text = write_table(&original, ';');
    let dsv = Dsv::from_str_with_options(&text, with_delimiter(b';')).unwrap();
    assert_eq!(rows(&dsv), original);
}

#[test]
fn reparse_gives_equal_tables() {
    let text = "x,\"y\"\"z\"\n1,\"2\n3\"";
    let first = Dsv::from_str(text).unwrap();
    let second = Dsv::from_str(text).unwrap();
    assert_eq!(first, second);
    assert!(Dsv::from_str("a\nb,c").is_err());
    assert!(Dsv::from_str("a\nb,c").is_err());
}

#[test]
fn doubled_quote_is_one_quote() {
    let dsv = Dsv::from_str(r#""foo""bar""#).unwrap();
    assert_eq!(rows(&dsv), table(&[&["foo\"bar"]]));
}

#[test]
fn empty_fields_at_edges_and_between() {
    assert_eq!(rows(&Dsv::from_str(",foo").unwrap()), table(&[&["", "foo"]]));
    assert_eq!(rows(&Dsv::from_str("foo,").unwrap()), table(&[&["foo", ""]]));
    assert_eq!(
        rows(&Dsv::from_str("foo,,bar").unwrap()),
        table(&[&["foo", "", "bar"]])
    );
}

#[test]
fn leading_delimiter_before_delimiter_gives_one_field() {
    assert_eq!(rows(&Dsv::from_str(",").unwrap()), table(&[&[""]]));
    assert_eq!(rows(&Dsv::from_str(",,x").unwrap()), table(&[&["", "x"]]));
}

#[test]
fn quoted_newline_stays_in_field() {
    let dsv = Dsv::from_str("\"a\nb\",c").unwrap();
    assert_eq!(rows(&dsv), table(&[&["a\nb", "c"]]));
}

#[test]
fn field_count_mismatch_fails() {
    assert_eq!(Dsv::from_str("foo,bar\nbaz"), Err(Error::Parse));
}

#[test]
fn adjacent_values_fail() {
    assert_eq!(Dsv::from_str("\"a\"b"), Err(Error::Parse));
    assert_eq!(Dsv::from_str("x,\"a\"\"b\"c"), Err(Error::Parse));
}

#[test]
fn semicolon_delimiter() {
    let dsv = Dsv::from_str_with_options("a;b;c", with_delimiter(b';')).unwrap();
    assert_eq!(rows(&dsv), table(&[&["a", "b", "c"]]));
    let dsv = Dsv::from_str_with_options("a;2,5", with_delimiter(b';')).unwrap();
    assert_eq!(rows(&dsv), table(&[&["a", "2,5"]]));
}

#[test]
fn insignificant_quotes_are_literal() {
    let options = Options {
        delimiter: b',',
        quotes: Quotes::Insignificant,
    };
    let dsv = Dsv::from_str_with_options("\"foo,bar\"", options).unwrap();
    assert_eq!(rows(&dsv), table(&[&["\"foo", "bar\""]]));
}

#[test]
fn empty_text_is_empty_table() {
    let dsv = Dsv::from_str("").unwrap();
    assert_eq!(dsv, Dsv::new());
    assert!(dsv.records.is_empty());
}

#[test]
fn trailing_newline_adds_no_record() {
    let dsv = Dsv::from_str("a,b\nc,d\n").unwrap();
    assert_eq!(rows(&dsv), table(&[&["a", "b"], &["c", "d"]]));
}

#[test]
fn blank_line_is_record_without_fields() {
    let dsv = Dsv::from_str("\n").unwrap();
    assert_eq!(dsv.records, vec![Vec::<String>::new()]);
    assert_eq!(Dsv::from_str("a\n\nb"), Err(Error::Parse));
}

#[test]
fn unterminated_quote_runs_to_end() {
    let dsv = Dsv::from_str("x,\"abc\ndef").unwrap();
    assert_eq!(rows(&dsv), table(&[&["x", "abc\ndef"]]));
    let mut lexer = Lexer::new("\"ab\"\"", b',', Quotes::Significant);
    assert_eq!(lexer.next(), Ok(Some(Token::Value("ab\"".into()))));
    assert_eq!(lexer.next(), Ok(None));
}

#[test]
fn non_ascii_delimiter_byte_never_splits() {
    let dsv = Dsv::from_str_with_options("a°b,c", with_delimiter(0xC2)).unwrap();
    assert_eq!(rows(&dsv), table(&[&["a°b,c"]]));
}

#[test]
fn non_ascii_text_is_kept() {
    let dsv = Dsv::from_str("é,\"ü\"\"ß\",日本").unwrap();
    assert_eq!(rows(&dsv), table(&[&["é", "ü\"ß", "日本"]]));
}

#[test]
fn quote_as_delimiter_splits() {
    let dsv = Dsv::from_str_with_options("a\"b", with_delimiter(b'"')).unwrap();
    assert_eq!(rows(&dsv), table(&[&["a", "b"]]));
}

#[test]
fn peek_does_not_advance() {
    let mut lexer = Lexer::new("ab,c", b',', Quotes::Significant);
    assert_eq!(lexer.peek(), Ok(Some(Token::Value("ab".into()))));
    assert_eq!(lexer.next(), Ok(Some(Token::Value("ab".into()))));
    assert_eq!(lexer.peek(), Ok(Some(Token::Delimiter)));
    assert_eq!(lexer.next(), Ok(Some(Token::Delimiter)));
    assert_eq!(lexer.next(), Ok(Some(Token::Value("c".into()))));
    assert_eq!(lexer.peek(), Ok(None));
}

#[test]
fn index_reads_and_writes_records() {
    let mut dsv = Dsv::from_str("a,b\nc,d").unwrap();
    assert_eq!(dsv[1][0], "c");
    dsv[1][0] = "z".to_string();
    assert_eq!(dsv[1], vec!["z".to_string(), "d".to_string()]);
}
