use lindera::dictionary::{ConnectionMatrix, Dictionary, Metadata, UserDictionary, WordEntry};
use lindera::offsets::OffsetMap;
use lindera::mode::{Mode, Penalty};
use lindera::segmenter::Segmenter;
use lindera::token::Token;

fn meta() -> Metadata {
    Metadata {
        name: String::from("test"),
        encoding: String::from("UTF-8"),
        num_fields: 5,
    }
}

fn entry(surface: &str, left: u16, right: u16, cost: i32, tag: &str) -> WordEntry {
    WordEntry {
        surface: surface.chars().collect(),
        left_id: left,
        right_id: right,
        word_cost: cost,
        details: vec![String::from(tag)],
    }
}

fn matrix_1x1() -> ConnectionMatrix {
    ConnectionMatrix {
        num_right: 1,
        num_left: 1,
        costs: vec![0],
    }
}

fn dict(entries: Vec<WordEntry>) -> Dictionary {
    Dictionary::new(meta(), entries, matrix_1x1()).unwrap()
}

#[test]
fn it_works() {}

#[test]
fn empty_input_yields_no_tokens() {
    let seg = Segmenter::new(Mode::Normal, dict(vec![entry("ab", 0, 0, 0, "X")]), None);
    let tokens = seg.segment("").unwrap();
    assert_eq!(tokens.len(), 0);
}

#[test]
fn unknown_single_char_covers_whole_input() {
    let seg = Segmenter::new(Mode::Normal, dict(vec![entry("zz", 0, 0, 0, "X")]), None);
    let tokens = seg.segment("q").unwrap();
    assert_eq!(tokens.len(), 1);
    assert_eq!(tokens[0].text, "q");
    assert_eq!(tokens[0].byte_start, 0);
    assert_eq!(tokens[0].byte_end, 1);
    assert_eq!(tokens[0].position, 0);
    assert_eq!(tokens[0].position_length, 1);
    assert_eq!(tokens[0].details, vec![String::from("UNK")]);
}

#[test]
fn dictionary_match_beats_unknown_fallback() {
    let seg = Segmenter::new(
        Mode::Normal,
        dict(vec![entry("ab", 0, 0, 10, "N"), entry("c", 0, 0, 10, "N")]),
        None,
    );
    let tokens = seg.segment("abc").unwrap();
    let surfaces: Vec<&str> = tokens.iter().map(|t| t.text.as_str()).collect();
    assert_eq!(surfaces, vec!["ab", "c"]);
}

#[test]
fn spans_partition_the_input() {
    let seg = Segmenter::new(
        Mode::Normal,
        dict(vec![entry("ab", 0, 0, 10, "N"), entry("bc", 0, 0, 5, "N")]),
        None,
    );
    let text = "abcabx";
    let tokens = seg.segment(text).unwrap();
    assert!(tokens.len() > 0);
    assert_eq!(tokens[0].byte_start, 0);
    assert_eq!(tokens[tokens.len() - 1].byte_end, text.len());
    for i in 0..tokens.len() - 1 {
        assert_eq!(tokens[i].byte_end, tokens[i + 1].byte_start);
    }
    for (i, t) in tokens.iter().enumerate() {
        assert!(t.byte_start < t.byte_end);
        assert_eq!(t.position, i);
    }
}

#[test]
fn segmentation_is_deterministic() {
    let d = dict(vec![entry("ab", 0, 0, 10, "N"), entry("bc", 0, 0, 5, "N")]);
    let seg1 = Segmenter::new(Mode::Normal, d.clone(), None);
    let seg2 = Segmenter::new(Mode::Normal, d, None);
    let a = seg1.segment("abcbcab").unwrap();
    let b = seg2.segment("abcbcab").unwrap();
    assert_eq!(a.len(), b.len());
    for (x, y) in a.iter().zip(b.iter()) {
        assert_eq!(x.text, y.text);
        assert_eq!(x.byte_start, y.byte_start);
        assert_eq!(x.byte_end, y.byte_end);
        assert_eq!(x.position, y.position);
        assert_eq!(x.details, y.details);
    }
}

#[test]
fn least_cost_path_wins() {
    // "abc" can be "abc" (cost 100) or "ab"+"c" (cost 10+10): the
    // cheaper split wins under a zero connection matrix.
    let seg = Segmenter::new(
        Mode::Normal,
        dict(vec![
            entry("abc", 0, 0, 100, "N"),
            entry("ab", 0, 0, 10, "N"),
            entry("c", 0, 0, 10, "N"),
        ]),
        None,
    );
    let tokens = seg.segment("abc").unwrap();
    let surfaces: Vec<&str> = tokens.iter().map(|t| t.text.as_str()).collect();
    assert_eq!(surfaces, vec!["ab", "c"]);
}

#[test]
fn user_dictionary_overrides_main_entry_over_same_span() {
    let d = dict(vec![entry("ab", 0, 0, 0, "main")]);
    let u = UserDictionary::new(vec![entry("ab", 0, 0, 0, "user")], &d).unwrap();
    let seg = Segmenter::new(Mode::Normal, d, Some(u));
    let tokens = seg.segment("ab").unwrap();
    assert_eq!(tokens.len(), 1);
    assert_eq!(tokens[0].details, vec![String::from("user")]);
}

#[test]
fn decompose_refines_a_long_cheap_compound() {
    // The compound is 8 characters, over the default non-kanji
    // threshold of 7: decompose adds 1700 to it, so the split
    // (cost 200) wins there while the compound (cost 0) wins in
    // normal mode.
    let d = dict(vec![
        entry("abcdefgh", 0, 0, 0, "N"),
        entry("abcd", 0, 0, 100, "N"),
        entry("efgh", 0, 0, 100, "N"),
    ]);
    let normal = Segmenter::new(Mode::Normal, d.clone(), None);
    let decompose = Segmenter::new(Mode::Decompose(Penalty::default()), d, None);
    let n_tokens = normal.segment("abcdefgh").unwrap();
    let d_tokens = decompose.segment("abcdefgh").unwrap();
    assert_eq!(n_tokens.len(), 1);
    assert_eq!(d_tokens.len(), 2);
    assert!(d_tokens.len() > n_tokens.len());
}

#[test]
fn encoding_mismatch_is_rejected_before_reading_text() {
    let mut m = meta();
    m.encoding = String::from("EUC-JP");
    let d = Dictionary::new(m, vec![entry("ab", 0, 0, 0, "N")], matrix_1x1()).unwrap();
    let seg = Segmenter::new(Mode::Normal, d, None);
    assert!(seg.segment("ab").is_err());
}

#[test]
fn connection_costs_steer_the_path() {
    // Two ways to read "ab": "ab" as one entry (cost 50) or
    // "a"+"b" (costs 0) whose connection 0->1 is expensive, making
    // the single entry cheaper overall.
    let m = Metadata {
        name: String::from("test"),
        encoding: String::from("UTF-8"),
        num_fields: 5,
    };
    let matrix = ConnectionMatrix {
        num_right: 2,
        num_left: 2,
        // cost(right_of_prev, left_of_next), row-major
        costs: vec![0, 100, 100, 900],
    };
    let entries = vec![
        entry("ab", 0, 0, 50, "N"),
        {
            let mut e = entry("a", 0, 0, 0, "N");
            e.right_id = 1;
            e
        },
        {
            let mut e = entry("b", 0, 0, 0, "N");
            e.left_id = 1;
            e
        },
    ];
    let d = Dictionary::new(m, entries, matrix).unwrap();
    let seg = Segmenter::new(Mode::Normal, d, None);
    let tokens = seg.segment("ab").unwrap();
    // single entry: begin conn(0,0)=0 + 50 + end conn(0,0)=0 = 50
    // split: begin conn(0,0)=0 + 0 + conn(1,1)=900 + 0 + end conn(0,0)=0 = 900
    assert_eq!(tokens.len(), 1);
    assert_eq!(tokens[0].text, "ab");
}

#[test]
fn token_constructor_keeps_fields() {
    let t = Token::new(String::from("ab"), 1, 3, 2, 1, vec![String::from("N")]);
    assert_eq!(t.text, "ab");
    assert_eq!(t.byte_start, 1);
    assert_eq!(t.byte_end, 3);
    assert_eq!(t.position, 2);
    assert_eq!(t.position_length, 1);
}

#[test]
fn multibyte_offsets_are_byte_offsets_of_the_original() {
    // Each of the two characters takes 3 bytes in UTF-8.
    let seg = Segmenter::new(Mode::Normal, dict(vec![]), None);
    let text = "あい";
    let tokens = seg.segment(text).unwrap();
    assert_eq!(tokens.len(), 2);
    assert_eq!(tokens[0].byte_start, 0);
    assert_eq!(tokens[0].byte_end, 3);
    assert_eq!(tokens[1].byte_start, 3);
    assert_eq!(tokens[1].byte_end, 6);
}

#[test]
fn lookup_finds_matching_entries_in_entry_order() {
    let entries = vec![
        entry("ab", 0, 0, 0, "A"),
        entry("zz", 0, 0, 0, "B"),
        entry("a", 0, 0, 0, "C"),
    ];
    let text: Vec<char> = "abc".chars().collect();
    let hits = Dictionary::lookup_indices(&entries, text.as_slice(), 0);
    assert_eq!(hits, vec![0, 2]);
    let none = Dictionary::lookup_indices(&entries, text.as_slice(), 2);
    assert!(none.is_empty());
}

#[test]
fn connection_cost_reads_the_dense_table() {
    let m = ConnectionMatrix {
        num_right: 2,
        num_left: 3,
        costs: vec![1, 2, 3, 4, 5, 6],
    };
    assert_eq!(m.cost(0, 0), 1);
    assert_eq!(m.cost(0, 2), 3);
    assert_eq!(m.cost(1, 0), 4);
    assert_eq!(m.cost(1, 2), 6);
}

#[test]
fn invalid_dictionaries_are_rejected_by_the_constructor() {
    // entry id outside the matrix
    let r = Dictionary::new(meta(), vec![entry("a", 5, 0, 0, "N")], matrix_1x1());
    assert!(r.is_err());
    // matrix with the wrong table size
    let bad = ConnectionMatrix {
        num_right: 2,
        num_left: 2,
        costs: vec![0],
    };
    assert!(Dictionary::new(meta(), vec![], bad).is_err());
    // empty surface
    let r = Dictionary::new(meta(), vec![entry("", 0, 0, 0, "N")], matrix_1x1());
    assert!(r.is_err());
}

#[test]
fn error_accessors_expose_kind_and_message() {
    let seg = Segmenter::new(
        Mode::Normal,
        {
            let mut m = meta();
            m.encoding = String::from("latin-1");
            Dictionary::new(m, vec![], matrix_1x1()).unwrap()
        },
        None,
    );
    let err = seg.segment("a").unwrap_err();
    assert_eq!(err.kind(), lindera::error::LinderaErrorKind::Segmentation);
    assert!(!err.message().is_empty());
}

#[test]
fn offset_maps_compose_pointwise() {
    let identity = OffsetMap::identity(3);
    assert_eq!(identity.boundaries, vec![0, 1, 2, 3]);
    let outer = OffsetMap {
        boundaries: vec![0, 2, 2, 5],
    };
    let inner = OffsetMap {
        boundaries: vec![0, 1, 3],
    };
    let composed = OffsetMap::compose(&outer, &inner, 3, 2, 5);
    assert_eq!(composed.boundaries, vec![0, 2, 5]);
}
