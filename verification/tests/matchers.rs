use furigana::series_parser::series_parser;
use furigana::string_parser::string_parser;

#[test]
fn test_series_parser_matches_prefix() {
    let expected = vec!['a', 'b'];
    let input = vec!['a', 'b', 'c'];
    let result = series_parser(&expected, &input, 0);
    assert_eq!(result, Ok((vec!['a', 'b'], 2)));
}

#[test]
fn test_series_parser_at_offset() {
    let expected = vec!['b', 'c'];
    let input = vec!['a', 'b', 'c'];
    let result = series_parser(&expected, &input, 1);
    assert_eq!(result, Ok((vec!['b', 'c'], 3)));
}

#[test]
fn test_series_parser_mismatch_position() {
    let expected = vec!['a', 'x'];
    let input = vec!['a', 'b', 'c'];
    let result = series_parser(&expected, &input, 0);
    assert_eq!(result, Err(1));
}

#[test]
fn test_series_parser_exhausted_input() {
    let expected = vec!['b', 'c', 'd'];
    let input = vec!['a', 'b', 'c'];
    let result = series_parser(&expected, &input, 1);
    assert_eq!(result, Err(3));
}

#[test]
fn test_series_parser_empty_requires_end() {
    let input = vec!['a'];
    let empty: Vec<char> = Vec::new();
    assert_eq!(series_parser(&empty, &input, 1), Ok((vec![], 1)));
    assert_eq!(series_parser(&empty, &input, 0), Err(0));
}

#[test]
fn test_string_parser_mismatch_position() {
    assert_eq!(
        string_parser(&"abc".to_string(), &"abd".to_string()),
        Err(2)
    );
    assert_eq!(
        string_parser(&"abc".to_string(), &"abcd".to_string()),
        Err(3)
    );
    assert_eq!(string_parser(&"abc".to_string(), &"ab".to_string()), Err(2));
    assert_eq!(string_parser(&"".to_string(), &"x".to_string()), Err(0));
}

#[test]
fn test_string_parser_multibyte() {
    assert_eq!(
        string_parser(&"じかん".to_string(), &"じかん".to_string()),
        Ok(vec!['じ', 'か', 'ん'])
    );
    assert_eq!(
        string_parser(&"じかん".to_string(), &"じかぬ".to_string()),
        Err(2)
    );
}
