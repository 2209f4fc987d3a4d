use lazy_bencoding::{BEncoded, DictIterator, Token};

fn tokens_of<'a>(mut elem: BEncoded<'a>) -> Vec<Token<'a>> {
    let mut result = Vec::new();
    while let Some(token) = elem.next() {
        result.push(token);
    }
    result
}

fn parse_and_collect<'a>(data: &'a [u8]) -> Vec<(Vec<Token<'a>>, Vec<Token<'a>>)> {
    let mut dict = DictIterator::new(data);
    let mut result = Vec::new();
    while let Some((key, value)) = dict.next() {
        result.push((tokens_of(key), tokens_of(value)));
    }
    result
}

#[test]
fn test_non_dict() {
    let results = parse_and_collect(b"i23e");
    assert_eq!(results, []);
}

#[test]
fn test_dict1() {
    let results = parse_and_collect(b"d1:ai23e1:bi5ee");
    assert_eq!(
        results,
        [
            (vec![Token::ByteString(b"a")], vec![Token::Integer(b"23")]),
            (vec![Token::ByteString(b"b")], vec![Token::Integer(b"5")]),
        ]
    );
}

#[test]
fn dict_test_empty() {
    let results = parse_and_collect(b"de");
    assert_eq!(results, []);
}

#[test]
fn dict_test_trailing() {
    let results = parse_and_collect(b"dei23e");
    assert_eq!(results, []);
}

#[test]
fn dict_leaves_trailing_data_alone() {
    let mut dict = DictIterator::new(b"dei23e");
    assert_eq!(dict.data, b"ei23e");
    assert!(dict.next().is_none());
    assert_eq!(dict.data, b"ei23e");
}

#[test]
fn dict_entries_are_fresh_cursors() {
    let mut dict = DictIterator::new(b"d1:ali1ee3:key5:valuee4:rest");
    let (key, value) = dict.next().unwrap();
    assert_eq!((key.data, key.depth), (&b"1:a"[..], 0));
    assert_eq!((value.data, value.depth), (&b"li1ee"[..], 0));
    assert_eq!(dict.data, b"3:key5:valuee4:rest");
    let (key, value) = dict.next().unwrap();
    assert_eq!(key.data, b"3:key");
    assert_eq!(value.data, b"5:value");
    assert_eq!(dict.data, b"e4:rest");
    assert!(dict.next().is_none());
    assert_eq!(dict.data, b"e4:rest");
}

#[test]
fn dict_keys_are_not_validated() {
    let results = parse_and_collect(b"di1e4:spamlei2ee");
    assert_eq!(
        results,
        [
            (vec![Token::Integer(b"1")], vec![Token::ByteString(b"spam")]),
            (vec![Token::ListStart, Token::End], vec![Token::Integer(b"2")]),
        ]
    );
}

#[test]
fn dict_key_without_value_is_no_entry() {
    let mut dict = DictIterator::new(b"d1:a");
    assert!(dict.next().is_none());
    assert_eq!(dict.data, b"1:a");
    let mut dict = DictIterator::new(b"d1:a1:bi1");
    assert!(dict.next().is_some());
    assert!(dict.next().is_none());
    assert_eq!(dict.data, b"i1");
}

#[test]
fn dict_takes_a_stray_end_for_a_value() {
    let mut dict = DictIterator::new(b"d1:ae");
    let (key, value) = dict.next().unwrap();
    assert_eq!(key.data, b"1:a");
    assert_eq!(value.data, b"e");
    assert!(dict.next().is_none());
    assert_eq!(dict.data, b"");
}

#[test]
fn dict_over_short_buffers() {
    assert_eq!(DictIterator::new(b"").data, b"");
    assert!(DictIterator::new(b"").next().is_none());
    assert_eq!(DictIterator::new(b"d").data, b"");
    assert!(DictIterator::new(b"d").next().is_none());
}
