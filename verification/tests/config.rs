use lindera::char_filter::{CharacterFilter, NormalizeKind, parse_character_filter};
use lindera::config::ConfigValue;
use lindera::dictionary::{ConnectionMatrix, Dictionary, Metadata, WordEntry};
use lindera::error::LinderaErrorKind;
use lindera::mode::{Mode, Penalty, parse_mode};
use lindera::token_filter::{TokenFilter, parse_token_filter};
use lindera::tokenizer::{
    TokenizerBuilder, parse_tokenizer_config, validate_dictionary_source,
    validate_user_dictionary_source,
};

fn obj(pairs: Vec<(&str, ConfigValue)>) -> ConfigValue {
    ConfigValue::Obj(
        pairs
            .into_iter()
            .map(|(k, v)| (String::from(k), v))
            .collect(),
    )
}

fn s(v: &str) -> ConfigValue {
    ConfigValue::Str(String::from(v))
}

#[test]
fn mode_names_parse_and_everything_else_is_rejected() {
    assert!(matches!(parse_mode("normal"), Ok(Mode::Normal)));
    assert!(matches!(parse_mode("Normal"), Ok(Mode::Normal)));
    assert!(matches!(parse_mode("decompose"), Ok(Mode::Decompose(_))));
    let err = parse_mode("fast").unwrap_err();
    assert_eq!(err.kind(), LinderaErrorKind::Config);
}

#[test]
fn default_penalty_has_the_stock_values() {
    let p = Penalty::default();
    assert_eq!(p.kanji_penalty_length_threshold, 2);
    assert_eq!(p.kanji_penalty_length_penalty, 3000);
    assert_eq!(p.other_penalty_length_threshold, 7);
    assert_eq!(p.other_penalty_length_penalty, 1700);
}

#[test]
fn unknown_character_filter_kind_is_a_config_error() {
    let err = parse_character_filter("frobnicate", &obj(vec![])).unwrap_err();
    assert_eq!(err.kind(), LinderaErrorKind::Config);
}

#[test]
fn unknown_token_filter_kind_is_a_config_error() {
    let err = parse_token_filter("frobnicate", &obj(vec![])).unwrap_err();
    assert_eq!(err.kind(), LinderaErrorKind::Config);
}

#[test]
fn character_filter_config_round_trips() {
    let args = obj(vec![("kind", s("nfkc"))]);
    let f = parse_character_filter("unicode_normalize", &args).unwrap();
    assert!(matches!(f, CharacterFilter::UnicodeNormalize(NormalizeKind::Nfkc)));
    let (name, re_args) = f.to_config();
    assert_eq!(name, "unicode_normalize");
    let g = parse_character_filter(name.as_str(), &re_args).unwrap();
    assert!(matches!(g, CharacterFilter::UnicodeNormalize(NormalizeKind::Nfkc)));
}

#[test]
fn mapping_filter_config_round_trips() {
    let table = obj(vec![("ab", s("X")), ("c", s("Y"))]);
    let args = obj(vec![("mapping", table)]);
    let f = parse_character_filter("mapping", &args).unwrap();
    let (name, re_args) = f.to_config();
    assert_eq!(name, "mapping");
    let g = parse_character_filter(name.as_str(), &re_args).unwrap();
    match (f, g) {
        (CharacterFilter::Mapping { pairs: p1 }, CharacterFilter::Mapping { pairs: p2 }) => {
            assert_eq!(p1, p2);
        }
        _ => panic!("wrong filter kind after round trip"),
    }
}

#[test]
fn token_filter_config_round_trips() {
    let args = obj(vec![(
        "words",
        ConfigValue::Arr(vec![s("the"), s("a")]),
    )]);
    let f = parse_token_filter("stop_words", &args).unwrap();
    let (name, re_args) = f.to_config();
    assert_eq!(name, "stop_words");
    let g = parse_token_filter(name.as_str(), &re_args).unwrap();
    match (f, g) {
        (TokenFilter::StopWords { words: w1 }, TokenFilter::StopWords { words: w2 }) => {
            assert_eq!(w1, w2);
        }
        _ => panic!("wrong filter kind after round trip"),
    }
}

#[test]
fn length_filter_config_round_trips_with_defaults() {
    let f = parse_token_filter("length", &obj(vec![("min", ConfigValue::Int(2))])).unwrap();
    match f {
        TokenFilter::Length { min, max } => {
            assert_eq!(min, 2);
            assert_eq!(max, usize::MAX);
        }
        _ => panic!("wrong filter kind"),
    }
    let (name, re_args) = f.to_config();
    let g = parse_token_filter(name.as_str(), &re_args).unwrap();
    match g {
        TokenFilter::Length { min, max } => {
            assert_eq!(min, 2);
            assert_eq!(max, usize::MAX);
        }
        _ => panic!("wrong filter kind after round trip"),
    }
}

#[test]
fn compound_word_config_round_trips() {
    let args = obj(vec![
        ("tags", ConfigValue::Arr(vec![s("数")])),
        ("new_tag", s("複合数")),
    ]);
    let f = parse_token_filter("compound_word", &args).unwrap();
    let (name, re_args) = f.to_config();
    assert_eq!(name, "compound_word");
    let g = parse_token_filter(name.as_str(), &re_args).unwrap();
    match (f, g) {
        (
            TokenFilter::CompoundWord { tags: t1, new_tag: n1 },
            TokenFilter::CompoundWord { tags: t2, new_tag: n2 },
        ) => {
            assert_eq!(t1, t2);
            assert_eq!(n1, n2);
        }
        _ => panic!("wrong filter kind after round trip"),
    }
}

#[test]
fn both_dictionary_kind_and_path_is_a_config_error() {
    let r = validate_dictionary_source(
        &Some(String::from("ipadic")),
        &Some(String::from("/tmp/dict.bin")),
    );
    let err = r.unwrap_err();
    assert_eq!(err.kind(), LinderaErrorKind::Config);
}

#[test]
fn exactly_one_dictionary_source_is_accepted() {
    assert!(validate_dictionary_source(&Some(String::from("ipadic")), &None).is_ok());
    assert!(validate_dictionary_source(&None, &Some(String::from("/d"))).is_ok());
    assert!(validate_dictionary_source(&None, &None).is_err());
}

#[test]
fn binary_user_dictionary_with_a_kind_is_a_config_error() {
    let r = validate_user_dictionary_source(
        &Some(String::from("user.bin")),
        &Some(String::from("ipadic")),
    );
    let err = r.unwrap_err();
    assert_eq!(err.kind(), LinderaErrorKind::Config);
    // a CSV user dictionary may carry a kind
    assert!(validate_user_dictionary_source(
        &Some(String::from("user.csv")),
        &Some(String::from("ipadic"))
    )
    .is_ok());
}

#[test]
fn tokenizer_config_rejects_both_dictionary_sources() {
    let config = obj(vec![(
        "segmenter",
        obj(vec![
            ("mode", s("normal")),
            ("dictionary", obj(vec![("kind", s("ipadic")), ("path", s("/d"))])),
        ]),
    )]);
    let err = parse_tokenizer_config(&config).unwrap_err();
    assert_eq!(err.kind(), LinderaErrorKind::Config);
}

#[test]
fn tokenizer_config_rejects_binary_user_dictionary_with_kind() {
    let config = obj(vec![(
        "segmenter",
        obj(vec![
            ("mode", s("normal")),
            ("dictionary", obj(vec![("kind", s("ipadic"))])),
            (
                "user_dictionary",
                obj(vec![("path", s("user.bin")), ("kind", s("ipadic"))]),
            ),
        ]),
    )]);
    let err = parse_tokenizer_config(&config).unwrap_err();
    assert_eq!(err.kind(), LinderaErrorKind::Config);
}

#[test]
fn tokenizer_config_parses_a_full_description() {
    let config = obj(vec![
        (
            "segmenter",
            obj(vec![
                ("mode", s("decompose")),
                ("dictionary", obj(vec![("kind", s("ipadic"))])),
            ]),
        ),
        (
            "character_filters",
            ConfigValue::Arr(vec![obj(vec![
                ("kind", s("unicode_normalize")),
                ("args", obj(vec![("kind", s("nfkc"))])),
            ])]),
        ),
        (
            "token_filters",
            ConfigValue::Arr(vec![obj(vec![
                ("kind", s("lowercase")),
                ("args", obj(vec![])),
            ])]),
        ),
    ]);
    let c = parse_tokenizer_config(&config).unwrap();
    assert!(matches!(c.mode, Mode::Decompose(_)));
    assert_eq!(c.dictionary_kind, Some(String::from("ipadic")));
    assert_eq!(c.dictionary_path, None);
    assert_eq!(c.character_filters.len(), 1);
    assert_eq!(c.token_filters.len(), 1);
}

#[test]
fn builder_requires_a_dictionary() {
    let b = TokenizerBuilder::new();
    assert!(b.build().is_err());
}

#[test]
fn builder_assembles_a_working_tokenizer() {
    let meta = Metadata {
        name: String::from("test"),
        encoding: String::from("UTF-8"),
        num_fields: 5,
    };
    let entries = vec![WordEntry {
        surface: "ab".chars().collect(),
        left_id: 0,
        right_id: 0,
        word_cost: 0,
        details: vec![String::from("N")],
    }];
    let matrix = ConnectionMatrix {
        num_right: 1,
        num_left: 1,
        costs: vec![0],
    };
    let d = Dictionary::new(meta, entries, matrix).unwrap();
    let mut b = TokenizerBuilder::new();
    b.set_mode("normal").unwrap();
    b.set_dictionary(d);
    b.append_token_filter(
        "stop_words",
        &obj(vec![("words", ConfigValue::Arr(vec![s("ab")]))]),
    )
    .unwrap();
    let t = b.build().unwrap();
    let tokens = t.tokenize("abx").unwrap();
    // "ab" is matched then dropped by the stop list; "x" is unknown
    let surfaces: Vec<&str> = tokens.iter().map(|t| t.text.as_str()).collect();
    assert_eq!(surfaces, vec!["x"]);
    assert_eq!(tokens[0].position, 0);
    assert_eq!(tokens[0].byte_start, 2);
    assert_eq!(tokens[0].byte_end, 3);
}

#[test]
fn tokenize_translates_offsets_through_character_filters() {
    let meta = Metadata {
        name: String::from("test"),
        encoding: String::from("UTF-8"),
        num_fields: 5,
    };
    let entries = vec![WordEntry {
        surface: "X".chars().collect(),
        left_id: 0,
        right_id: 0,
        word_cost: 0,
        details: vec![String::from("N")],
    }];
    let matrix = ConnectionMatrix {
        num_right: 1,
        num_left: 1,
        costs: vec![0],
    };
    let d = Dictionary::new(meta, entries, matrix).unwrap();
    let mut b = TokenizerBuilder::new();
    b.set_dictionary(d);
    // rewrite "ab" to "X" before lookup
    let table = obj(vec![("ab", s("X"))]);
    b.append_character_filter("mapping", &obj(vec![("mapping", table)]))
        .unwrap();
    let t = b.build().unwrap();
    let tokens = t.tokenize("abc").unwrap();
    let surfaces: Vec<&str> = tokens.iter().map(|t| t.text.as_str()).collect();
    assert_eq!(surfaces, vec!["X", "c"]);
    // "X" stands for the original bytes 0..2, "c" for 2..3
    assert_eq!(tokens[0].byte_start, 0);
    assert_eq!(tokens[0].byte_end, 2);
    assert_eq!(tokens[1].byte_start, 2);
    assert_eq!(tokens[1].byte_end, 3);
}

#[test]
fn tokenize_is_deterministic_across_equal_tokenizers() {
    let build = || {
        let meta = Metadata {
            name: String::from("test"),
            encoding: String::from("UTF-8"),
            num_fields: 5,
        };
        let entries = vec![WordEntry {
            surface: "X".chars().collect(),
            left_id: 0,
            right_id: 0,
            word_cost: 0,
            details: vec![String::from("N")],
        }];
        let matrix = ConnectionMatrix {
            num_right: 1,
            num_left: 1,
            costs: vec![0],
        };
        let d = Dictionary::new(meta, entries, matrix).unwrap();
        let mut b = TokenizerBuilder::new();
        b.set_dictionary(d);
        let table = obj(vec![("ab", s("X"))]);
        b.append_character_filter("mapping", &obj(vec![("mapping", table)]))
            .unwrap();
        b.append_token_filter("lowercase", &obj(vec![])).unwrap();
        b.build().unwrap()
    };
    let t1 = build();
    let t2 = build();
    let a = t1.tokenize("abcAB").unwrap();
    let b = t2.tokenize("abcAB").unwrap();
    assert_eq!(a.len(), b.len());
    for (x, y) in a.iter().zip(b.iter()) {
        assert_eq!(x.text, y.text);
        assert_eq!(x.byte_start, y.byte_start);
        assert_eq!(x.byte_end, y.byte_end);
        assert_eq!(x.position, y.position);
    }
}
