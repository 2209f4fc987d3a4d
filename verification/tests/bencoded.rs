use lazy_bencoding::{BEncoded, Token};

fn collect<'a>(input: &'a [u8]) -> Vec<Token<'a>> {
    let mut bencoded = BEncoded::new(input);
    let mut result = Vec::new();
    while let Some(token) = bencoded.next() {
        result.push(token);
    }
    result
}

fn expect<'a>(input: &'a [u8], expected: &[Token<'a>]) {
    assert_eq!(collect(input), expected);
}

#[test]
fn bencoded_test_strings() {
    expect(b"4:spam", &[Token::ByteString(b"spam")]);
}

#[test]
fn bencoded_test_integers() {
    expect(b"i3e", &[Token::Integer(b"3")]);
    expect(b"i-3e", &[Token::Integer(b"-3")]);
    expect(b"i0e", &[Token::Integer(b"0")]);
}

#[test]
fn bencoded_test_lists() {
    expect(
        b"l4:spam4:eggse",
        &[
            Token::ListStart,
            Token::ByteString(b"spam"),
            Token::ByteString(b"eggs"),
            Token::End,
        ],
    );
}

#[test]
fn bencoded_test_dict() {
    expect(
        b"d3:cow3:moo4:spam4:eggse",
        &[
            Token::DictStart,
            Token::ByteString(b"cow"),
            Token::ByteString(b"moo"),
            Token::ByteString(b"spam"),
            Token::ByteString(b"eggs"),
            Token::End,
        ],
    );
    expect(
        b"d4:spaml1:a1:bee",
        &[
            Token::DictStart,
            Token::ByteString(b"spam"),
            Token::ListStart,
            Token::ByteString(b"a"),
            Token::ByteString(b"b"),
            Token::End,
            Token::End,
        ],
    );
}

#[test]
fn test_only_one() {
    expect(b"4:spam4:eggs", &[Token::ByteString(b"spam")]);
}

#[test]
fn new_cursor_starts_at_depth_zero() {
    let bencoded = BEncoded::new(b"i1e");
    assert_eq!(bencoded.data, b"i1e");
    assert_eq!(bencoded.depth, 0);
}

#[test]
fn empty_cursor_has_no_data() {
    let bencoded = BEncoded::empty();
    assert_eq!(bencoded.data, b"");
    assert_eq!(bencoded.depth, 0);
}

#[test]
fn scalar_finishes_the_cursor() {
    let mut bencoded = BEncoded::new(b"4:spam4:eggs");
    assert_eq!(bencoded.next(), Some(Token::ByteString(b"spam")));
    assert!(bencoded.depth < 0);
    assert_eq!(bencoded.data, b"4:eggs");
    assert_eq!(bencoded.next(), None);
    assert_eq!(bencoded.data, b"4:eggs");
}

#[test]
fn depth_follows_the_markers() {
    let mut bencoded = BEncoded::new(b"ldede1:xei7e");
    assert_eq!(bencoded.next(), Some(Token::ListStart));
    assert_eq!(bencoded.depth, 1);
    assert_eq!(bencoded.next(), Some(Token::DictStart));
    assert_eq!(bencoded.depth, 2);
    assert_eq!(bencoded.next(), Some(Token::End));
    assert_eq!(bencoded.depth, 1);
    assert_eq!(bencoded.next(), Some(Token::DictStart));
    assert_eq!(bencoded.next(), Some(Token::End));
    assert_eq!(bencoded.next(), Some(Token::ByteString(b"x")));
    assert_eq!(bencoded.depth, 1);
    assert_eq!(bencoded.next(), Some(Token::End));
    assert!(bencoded.depth < 0);
    assert_eq!(bencoded.data, b"i7e");
    assert_eq!(bencoded.next(), None);
}

#[test]
fn compound_value_stops_before_trailing_data() {
    expect(
        b"l4:spamei23e",
        &[Token::ListStart, Token::ByteString(b"spam"), Token::End],
    );
    expect(b"dei23e", &[Token::DictStart, Token::End]);
}

#[test]
fn stray_end_is_one_token() {
    expect(b"e4:spam", &[Token::End]);
}

#[test]
fn unclosed_list_runs_out_of_tokens() {
    let mut bencoded = BEncoded::new(b"l4:spam");
    assert_eq!(bencoded.next(), Some(Token::ListStart));
    assert_eq!(bencoded.next(), Some(Token::ByteString(b"spam")));
    assert_eq!(bencoded.next(), None);
    assert_eq!(bencoded.depth, 1);
}

#[test]
fn malformed_data_yields_nothing() {
    expect(b"", &[]);
    expect(b"x", &[]);
    expect(b"5:abc", &[]);
    expect(b"i12", &[]);
}

#[test]
fn finished_cursor_stays_finished() {
    let mut bencoded = BEncoded { data: b"i1e", depth: -1 };
    assert_eq!(bencoded.next(), None);
    assert_eq!(bencoded.data, b"i1e");
    assert_eq!(bencoded.depth, -1);
}

#[test]
fn cursor_inside_a_value_reads_on() {
    let mut bencoded = BEncoded { data: b"i1ei2ee4:spam", depth: 1 };
    assert_eq!(bencoded.next(), Some(Token::Integer(b"1")));
    assert_eq!(bencoded.depth, 1);
    assert_eq!(bencoded.next(), Some(Token::Integer(b"2")));
    assert_eq!(bencoded.next(), Some(Token::End));
    assert!(bencoded.depth < 0);
    assert_eq!(bencoded.next(), None);
}

#[test]
fn nesting_stops_at_the_deepest_level() {
    let mut input = vec![b'l'; 40000];
    input.extend(vec![b'e'; 40000]);
    let tokens = collect(&input);
    assert_eq!(tokens.len(), 32767);
    assert!(tokens.iter().all(|t| *t == Token::ListStart));
    assert_eq!(BEncoded::new(&input).this_and_rest().map(|(b, r)| (b.data.len(), r.len())), None);
}

#[test]
fn deep_nesting_below_the_limit_is_read() {
    let mut input = vec![b'l'; 32767];
    input.extend(vec![b'e'; 32767]);
    input.extend(b"i1e");
    let tokens = collect(&input);
    assert_eq!(tokens.len(), 2 * 32767);
    let (this, rest) = BEncoded::new(&input).this_and_rest().unwrap();
    assert_eq!(this.data.len(), 2 * 32767);
    assert_eq!(rest, b"i1e");
}
