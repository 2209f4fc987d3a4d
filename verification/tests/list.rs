use lazy_bencoding::{BEncoded, ListIterator, Token};

fn tokens_of<'a>(mut elem: BEncoded<'a>) -> Vec<Token<'a>> {
    let mut result = Vec::new();
    while let Some(token) = elem.next() {
        result.push(token);
    }
    result
}

fn parse_and_collect<'a>(data: &'a [u8]) -> Vec<Vec<Token<'a>>> {
    let mut list = ListIterator::new(data);
    let mut result = Vec::new();
    while let Some(elem) = list.next() {
        result.push(tokens_of(elem));
    }
    result
}

#[test]
fn test_non_list() {
    let results = parse_and_collect(b"i23e");
    assert_eq!(results.len(), 0);
}

#[test]
fn test_list1() {
    let results = parse_and_collect(b"l1:ai23e1:bi5ee");
    assert_eq!(
        results,
        [
            [Token::ByteString(b"a")],
            [Token::Integer(b"23")],
            [Token::ByteString(b"b")],
            [Token::Integer(b"5")],
        ]
    );
}

#[test]
fn test_list2() {
    let results = parse_and_collect(b"ll1:ai23eed1:bi5eee");
    assert_eq!(
        results,
        [
            [Token::ListStart, Token::ByteString(b"a"), Token::Integer(b"23"), Token::End],
            [Token::DictStart, Token::ByteString(b"b"), Token::Integer(b"5"), Token::End],
        ]
    );
}

#[test]
fn list_test_empty() {
    let results = parse_and_collect(b"le");
    assert_eq!(results.len(), 0);
}

#[test]
fn list_test_trailing() {
    let results = parse_and_collect(b"lei23e");
    assert_eq!(results.len(), 0);
}

#[test]
fn list_leaves_trailing_data_alone() {
    let mut list = ListIterator::new(b"lei23e");
    assert_eq!(list.data, b"ei23e");
    assert!(list.next().is_none());
    assert_eq!(list.data, b"ei23e");
}

#[test]
fn list_stops_at_its_end_marker() {
    let mut list = ListIterator::new(b"li1eei2e");
    assert_eq!(list.next().map(|e| e.data), Some(&b"i1e"[..]));
    assert_eq!(list.data, b"ei2e");
    assert!(list.next().is_none());
    assert_eq!(list.data, b"ei2e");
}

#[test]
fn list_elements_are_fresh_cursors() {
    let mut list = ListIterator::new(b"l4:spamli1eee");
    let first = list.next().unwrap();
    assert_eq!(first.data, b"4:spam");
    assert_eq!(first.depth, 0);
    let second = list.next().unwrap();
    assert_eq!(second.data, b"li1ee");
    assert_eq!(second.depth, 0);
    assert!(list.next().is_none());
}

#[test]
fn list_over_short_buffers() {
    assert_eq!(ListIterator::new(b"").data, b"");
    assert!(ListIterator::new(b"").next().is_none());
    assert_eq!(ListIterator::new(b"l").data, b"");
    assert!(ListIterator::new(b"l").next().is_none());
    assert_eq!(ListIterator::new(b"x").data, b"");
}

#[test]
fn list_skips_the_marker_untested() {
    let mut list = ListIterator::new(b"xi1ee");
    assert_eq!(list.next().map(|e| e.data), Some(&b"i1e"[..]));
    assert!(list.next().is_none());
}

#[test]
fn list_stops_at_an_incomplete_element() {
    let mut list = ListIterator::new(b"li1el4:spam");
    assert_eq!(list.next().map(|e| e.data), Some(&b"i1e"[..]));
    assert!(list.next().is_none());
    assert_eq!(list.data, b"l4:spam");
}

#[test]
fn list_without_end_marker_runs_to_the_end() {
    let results = parse_and_collect(b"li1ei2e");
    assert_eq!(results, [[Token::Integer(b"1")], [Token::Integer(b"2")]]);
}
