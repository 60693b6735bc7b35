use lindera::char_filter::{CharacterFilter, NormalizeKind};
use lindera::token::Token;
use lindera::token_filter::TokenFilter;

fn tok(text: &str, start: usize, end: usize, pos: usize, details: Vec<&str>) -> Token {
    Token::new(
        String::from(text),
        start,
        end,
        pos,
        1,
        details.into_iter().map(String::from).collect(),
    )
}

#[test]
fn stop_words_drops_exactly_the_member_and_renumbers() {
    let filter = TokenFilter::StopWords {
        words: vec![String::from("the")],
    };
    let tokens = vec![
        tok("the", 0, 3, 0, vec!["D"]),
        tok("cat", 4, 7, 1, vec!["N"]),
        tok("sat", 8, 11, 2, vec!["V"]),
    ];
    let out = filter.apply(&tokens).unwrap();
    assert_eq!(out.len(), 2);
    assert_eq!(out[0].text, "cat");
    assert_eq!(out[0].position, 0);
    assert_eq!(out[1].text, "sat");
    assert_eq!(out[1].position, 1);
}

#[test]
fn length_filter_keeps_two_to_four() {
    let filter = TokenFilter::Length { min: 2, max: 4 };
    let tokens = vec![
        tok("a", 0, 1, 0, vec![]),
        tok("bb", 1, 3, 1, vec![]),
        tok("ccccc", 3, 8, 2, vec![]),
        tok("ddd", 8, 11, 3, vec![]),
    ];
    let out = filter.apply(&tokens).unwrap();
    let surfaces: Vec<&str> = out.iter().map(|t| t.text.as_str()).collect();
    assert_eq!(surfaces, vec!["bb", "ddd"]);
    assert_eq!(out[0].position, 0);
    assert_eq!(out[1].position, 1);
}

#[test]
fn length_filter_counts_characters_not_bytes() {
    let filter = TokenFilter::Length { min: 2, max: 2 };
    let tokens = vec![tok("ああ", 0, 6, 0, vec![])];
    let out = filter.apply(&tokens).unwrap();
    assert_eq!(out.len(), 1);
}

#[test]
fn lowercase_rewrites_text_and_keeps_offsets() {
    let filter = TokenFilter::Lowercase;
    let tokens = vec![tok("HeLLo", 2, 7, 0, vec!["N"])];
    let out = filter.apply(&tokens).unwrap();
    assert_eq!(out[0].text, "hello");
    assert_eq!(out[0].byte_start, 2);
    assert_eq!(out[0].byte_end, 7);
    assert_eq!(out[0].details, vec![String::from("N")]);
}

#[test]
fn uppercase_rewrites_text() {
    let filter = TokenFilter::Uppercase;
    let out = filter.apply(&vec![tok("abc", 0, 3, 0, vec![])]).unwrap();
    assert_eq!(out[0].text, "ABC");
}

#[test]
fn keep_words_keeps_only_members() {
    let filter = TokenFilter::KeepWords {
        words: vec![String::from("cat")],
    };
    let tokens = vec![tok("the", 0, 3, 0, vec![]), tok("cat", 4, 7, 1, vec![])];
    let out = filter.apply(&tokens).unwrap();
    assert_eq!(out.len(), 1);
    assert_eq!(out[0].text, "cat");
}

#[test]
fn stop_tags_drops_by_tag_prefix() {
    let filter = TokenFilter::StopTags {
        tags: vec![String::from("助詞")],
    };
    let tokens = vec![
        tok("の", 0, 3, 0, vec!["助詞,格助詞"]),
        tok("犬", 3, 6, 1, vec!["名詞"]),
    ];
    let out = filter.apply(&tokens).unwrap();
    assert_eq!(out.len(), 1);
    assert_eq!(out[0].text, "犬");
}

#[test]
fn keep_tags_keeps_by_tag_prefix() {
    let filter = TokenFilter::KeepTags {
        tags: vec![String::from("名詞")],
    };
    let tokens = vec![
        tok("の", 0, 3, 0, vec!["助詞"]),
        tok("犬", 3, 6, 1, vec!["名詞,一般"]),
    ];
    let out = filter.apply(&tokens).unwrap();
    assert_eq!(out.len(), 1);
    assert_eq!(out[0].text, "犬");
}

#[test]
fn base_form_substitutes_the_detail_field() {
    let filter = TokenFilter::BaseForm { field: 1 };
    let tokens = vec![
        tok("走っ", 0, 6, 0, vec!["動詞", "走る"]),
        tok("犬", 6, 9, 1, vec!["名詞", "*"]),
    ];
    let out = filter.apply(&tokens).unwrap();
    assert_eq!(out[0].text, "走る");
    assert_eq!(out[0].byte_start, 0);
    assert_eq!(out[0].byte_end, 6);
    // "*" means no base form: the surface stays
    assert_eq!(out[1].text, "犬");
}

#[test]
fn compound_word_merges_a_matching_run() {
    let filter = TokenFilter::CompoundWord {
        tags: vec![String::from("数")],
        new_tag: Some(String::from("複合数")),
    };
    let tokens = vec![
        tok("一", 0, 3, 0, vec!["数"]),
        tok("二", 3, 6, 1, vec!["数"]),
        tok("匹", 6, 9, 2, vec!["助数詞"]),
    ];
    let out = filter.apply(&tokens).unwrap();
    assert_eq!(out.len(), 2);
    assert_eq!(out[0].text, "一二");
    assert_eq!(out[0].byte_start, 0);
    assert_eq!(out[0].byte_end, 6);
    assert_eq!(out[0].position, 0);
    assert_eq!(out[0].position_length, 2);
    assert_eq!(out[0].details, vec![String::from("複合数")]);
    assert_eq!(out[1].text, "匹");
    assert_eq!(out[1].position, 1);
}

#[test]
fn mapping_filter_rewrites_longest_match_first() {
    let filter = CharacterFilter::Mapping {
        pairs: vec![
            ("ab".chars().collect(), "X".chars().collect()),
            ("abc".chars().collect(), "Y".chars().collect()),
        ],
    };
    let input: Vec<char> = "abcab".chars().collect();
    let (out, map) = filter.apply(&input).unwrap();
    let out_text: String = out.iter().collect();
    // "abc" is the longest match at 0, then "ab" at 3
    assert_eq!(out_text, "YX");
    // boundaries: 0, end of "abc", end of "ab"
    assert_eq!(map.boundaries, vec![0, 3, 5]);
}

#[test]
fn mapping_filter_deletes_with_empty_replacement() {
    let filter = CharacterFilter::Mapping {
        pairs: vec![("b".chars().collect(), "".chars().collect())],
    };
    let input: Vec<char> = "abc".chars().collect();
    let (out, map) = filter.apply(&input).unwrap();
    let out_text: String = out.iter().collect();
    assert_eq!(out_text, "ac");
    // the deleted span is attributed to the boundary that follows it
    assert_eq!(map.boundaries, vec![0, 1, 3]);
}

#[test]
fn iteration_mark_repeats_the_previous_character() {
    let filter = CharacterFilter::JapaneseIterationMark {
        normalize_kanji: true,
        normalize_kana: true,
    };
    let input: Vec<char> = "人々こゝ".chars().collect();
    let (out, map) = filter.apply(&input).unwrap();
    let out_text: String = out.iter().collect();
    assert_eq!(out_text, "人人ここ");
    // length is preserved, so the map is the identity
    assert_eq!(map.boundaries, vec![0, 1, 2, 3, 4]);
}

#[test]
fn unicode_normalize_nfkc_folds_fullwidth() {
    let filter = CharacterFilter::UnicodeNormalize(NormalizeKind::Nfkc);
    let input: Vec<char> = "Ａb".chars().collect();
    let (out, map) = filter.apply(&input).unwrap();
    let out_text: String = out.iter().collect();
    assert_eq!(out_text, "Ab");
    // the map stays total and monotonic over the rewritten text
    assert_eq!(map.boundaries.len(), out.len() + 1);
    assert_eq!(map.boundaries[out.len()], input.len());
    for w in map.boundaries.windows(2) {
        assert!(w[0] <= w[1]);
    }
}

#[test]
fn regex_filter_replaces_all_matches() {
    let filter = CharacterFilter::RegexReplace {
        pattern: String::from("[0-9]+"),
        replacement: String::from("#"),
    };
    let input: Vec<char> = "a12b345c".chars().collect();
    let (out, _map) = filter.apply(&input).unwrap();
    let out_text: String = out.iter().collect();
    assert_eq!(out_text, "a#b#c");
}

#[test]
fn invalid_regex_pattern_fails_at_apply_with_config_error() {
    let filter = CharacterFilter::RegexReplace {
        pattern: String::from("("),
        replacement: String::from("#"),
    };
    let input: Vec<char> = "a".chars().collect();
    assert!(filter.apply(&input).is_err());
}
