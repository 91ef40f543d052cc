use furigana::parse_furigana;
use furigana::string_parser::string_parser;
use furigana::word_parser::word_parser;
use furigana::Furigana;
use std::collections::HashMap;

fn dict(entries: Vec<(char, Vec<&str>)>) -> HashMap<u32, Vec<String>> {
    entries
        .into_iter()
        .map(|(k, v)| (k as u32, v.into_iter().map(|s| s.to_string()).collect()))
        .collect()
}

fn groups(entries: Vec<(char, Vec<&str>)>) -> Vec<(char, Vec<String>)> {
    entries
        .into_iter()
        .map(|(k, v)| (k, v.into_iter().map(|s| s.to_string()).collect()))
        .collect()
}

#[test]
fn test_parse_expression() {
    let cases = vec![
        (
            "時間".to_string(),
            "じかん".to_string(),
            vec![('時', vec!["とき", "じ", "どき"]), (
                '間',
                vec!["あいだ", "ま", "かん", "けん", "あい"],
            )],
        ),
        (
            "噴煙".to_string(),
            "ふんえん".to_string(),
            vec![('噴', vec!["ふ", "く", "ふん"]), (
                '煙',
                vec!["けむ", "る", "けむり", "けむ", "い", "えん"],
            )],
        ),
        (
            "関連".to_string(),
            "かんれん".to_string(),
            vec![
                ('関', vec![
                    "せき",
                    "ぜき",
                    "かか",
                    "わる",
                    "からくり",
                    "かんぬき",
                    "かん",
                ]),
                ('連', vec![
                    "つら",
                    "なる",
                    "つら",
                    "ねる",
                    "つ",
                    "れる",
                    "づ",
                    "れ",
                    "れん",
                    "っ",
                ]),
            ],
        ),
        (
            "着々".to_string(),
            "ちゃくちゃく".to_string(),
            vec![
                ('着', vec![
                    "き",
                    "る",
                    "き",
                    "せる",
                    "つ",
                    "く",
                    "つ",
                    "ける",
                    "ちゃく",
                    "じゃく",
                    "っ",
                    "っ",
                ]),
                ('々', vec![
                    "ぎ",
                    "き",
                    "る",
                    "る",
                    "ぎ",
                    "き",
                    "ぜる",
                    "せる",
                    "づ",
                    "つ",
                    "ぐ",
                    "く",
                    "づ",
                    "つ",
                    "げる",
                    "ける",
                    "ぢゃく",
                    "ちゃく",
                    "じゃく",
                    "じゃく",
                    "っ",
                    "っ",
                    "っ",
                    "っ",
                ]),
            ],
        ),
    ];

    for (word, reading, kanji_readings) in cases {
        let kanji_readings = dict(kanji_readings);
        let result = parse_furigana(&word, &reading, &kanji_readings);
        assert!(result.is_ok());
        let result = result.unwrap();
        assert_eq!(result.to_writing(), word);
        assert_eq!(result.to_reading(), reading);
    }
}

#[test]
fn test_string_parser_basic() {
    let result = string_parser(&"abc".to_string(), &"abc".to_string());
    assert_eq!(result, Ok(vec!['a', 'b', 'c']));
}

#[test]
fn test_string_parser_empty() {
    let result = string_parser(&"".to_string(), &"".to_string());
    assert_eq!(result, Ok(vec![]));
}

#[test]
fn test_string_parser_partial_match() {
    let result = string_parser(&"abc".to_string(), &"ab".to_string());
    assert!(result.is_err());
}

#[test]
fn test_string_parser_extra_input() {
    let result = string_parser(&"abc".to_string(), &"abcd".to_string());
    assert!(result.is_err());
}

#[test]
fn test_word_parser() {
    let pairs = groups(vec![('1', vec!["a", "ab"]), ('2', vec!["bc"])]);
    let result = word_parser(pairs, &"abc".to_string());
    assert!(result.is_ok());
    let result = result.unwrap();
    assert!(result == vec![('1', "a".to_string()), ('2', "bc".to_string())]);
}

#[test]
fn test_scenario_a() {
    let pairs = groups(vec![('時', vec!["とき", "じ", "どき"]), (
        '間',
        vec!["あいだ", "ま", "かん", "けん", "あい"],
    )]);
    let result = word_parser(pairs, &"じかん".to_string());
    assert_eq!(
        result,
        Ok(vec![('時', "じ".to_string()), ('間', "かん".to_string())])
    );
}

#[test]
fn test_scenario_b() {
    let pairs = groups(vec![('噴', vec!["ふ", "く", "ふん"]), (
        '煙',
        vec!["けむ", "る", "けむり", "けむ", "い", "えん"],
    )]);
    let result = word_parser(pairs, &"ふんえん".to_string());
    assert_eq!(
        result,
        Ok(vec![('噴', "ふん".to_string()), ('煙', "えん".to_string())])
    );
}

#[test]
fn test_scenario_c_difficult_case() {
    let pairs = groups(vec![
        ('関', vec![
            "せき",
            "ぜき",
            "かか",
            "わる",
            "からくり",
            "かんぬき",
            "かん",
        ]),
        ('連', vec![
            "つら",
            "なる",
            "つら",
            "ねる",
            "つ",
            "れる",
            "づ",
            "れ",
            "れん",
            "っ",
        ]),
    ]);
    let result = word_parser(pairs, &"かんれん".to_string());
    assert_eq!(
        result,
        Ok(vec![('関', "かん".to_string()), ('連', "れん".to_string())])
    );
}

#[test]
fn test_empty_segments_empty_target() {
    let result = word_parser(Vec::new(), &"".to_string());
    assert_eq!(result, Ok(vec![]));
}

#[test]
fn test_empty_segments_nonempty_target() {
    let result = word_parser(Vec::new(), &"x".to_string());
    assert!(result.is_err());
    let failure = result.unwrap_err();
    assert_eq!(failure.segment, 0);
    assert_eq!(failure.position, 0);
}

#[test]
fn test_nonempty_segments_empty_target() {
    let pairs = groups(vec![('a', vec!["x"])]);
    let result = word_parser(pairs, &"".to_string());
    assert!(result.is_err());
}

#[test]
fn test_failure_reports_deepest_point() {
    let pairs = groups(vec![('a', vec!["x"])]);
    let result = word_parser(pairs, &"xy".to_string());
    assert!(result.is_err());
    let failure = result.unwrap_err();
    assert_eq!(failure.segment, 1);
    assert_eq!(failure.position, 1);
}

#[test]
fn test_determinism() {
    let pairs = vec![('時', vec!["とき", "じ", "どき"]), (
        '間',
        vec!["あいだ", "ま", "かん", "けん", "あい"],
    )];
    let r1 = word_parser(groups(pairs.clone()), &"じかん".to_string());
    let r2 = word_parser(groups(pairs), &"じかん".to_string());
    assert_eq!(r1, r2);
}

#[test]
fn test_literal_passthrough() {
    let kanji_readings = dict(vec![('時', vec!["とき", "じ", "どき"])]);
    let result = parse_furigana(
        &"a時b".to_string(),
        &"aじb".to_string(),
        &kanji_readings,
    );
    assert!(result.is_ok());
    let units = result.unwrap().to_vec();
    assert_eq!(units.len(), 3);
    assert_eq!(units[0], Furigana::Other('a'));
    assert_eq!(units[1], Furigana::Kanji {
        character: '時',
        reading: "じ".to_string(),
    });
    assert_eq!(units[2], Furigana::Other('b'));
}

#[test]
fn test_parse_furigana_unresolvable() {
    let kanji_readings = dict(vec![('時', vec!["とき", "どき"])]);
    let result = parse_furigana(&"時".to_string(), &"じ".to_string(), &kanji_readings);
    assert!(result.is_err());
}

#[test]
fn test_kanji_without_dictionary_entry_passes_through() {
    let kanji_readings = dict(vec![]);
    let result = parse_furigana(&"時".to_string(), &"時".to_string(), &kanji_readings);
    assert!(result.is_ok());
    let units = result.unwrap().to_vec();
    assert_eq!(units, vec![Furigana::Kanji {
        character: '時',
        reading: "時".to_string(),
    }]);
}

#[test]
fn test_longest_candidate_preferred() {
    let pairs = groups(vec![('a', vec!["x", "xx"]), ('b', vec!["x", "y"])]);
    let result = word_parser(pairs, &"xxx".to_string());
    assert_eq!(
        result,
        Ok(vec![('a', "xx".to_string()), ('b', "x".to_string())])
    );
}

#[test]
fn test_furigana_unit_projections() {
    let unit = Furigana::Kanji {
        character: '時',
        reading: "じ".to_string(),
    };
    assert_eq!(unit.to_writing(), "時".to_string());
    assert_eq!(unit.to_reading(), "じ".to_string());
    let other = Furigana::Other('a');
    assert_eq!(other.to_writing(), "a".to_string());
    assert_eq!(other.to_reading(), "a".to_string());
}
