use lindera::builder::{build_dictionary_data, build_user_dictionary_data, encode_dictionary, encode_user_dictionary, load_dictionary_bytes, load_user_dictionary_bytes};
use lindera::dictionary::Metadata;
use lindera::error::LinderaErrorKind;
use lindera::mode::Mode;
use lindera::segmenter::Segmenter;

fn meta() -> Metadata {
    Metadata {
        name: String::from("test"),
        encoding: String::from("UTF-8"),
        num_fields: 5,
    }
}

const LEXICON: &str = "ab,0,0,10,N\nc,0,0,10,N\n";
const MATRIX: &str = "1 1\n0 0 0\n";

#[test]
fn build_then_load_round_trips() {
    let bytes = build_dictionary_data(LEXICON, MATRIX, meta()).unwrap();
    let d = load_dictionary_bytes(bytes.as_slice()).unwrap();
    assert_eq!(d.metadata.name, "test");
    assert_eq!(d.metadata.encoding, "UTF-8");
    assert_eq!(d.metadata.num_fields, 5);
    assert_eq!(d.entries.len(), 2);
    let surface: String = d.entries[0].surface.iter().collect();
    assert_eq!(surface, "ab");
    assert_eq!(d.entries[0].word_cost, 10);
    assert_eq!(d.entries[0].details, vec![String::from("N")]);
    assert_eq!(d.matrix.num_right, 1);
    assert_eq!(d.matrix.num_left, 1);
    assert_eq!(d.matrix.costs, vec![0]);
    // the loaded dictionary re-encodes to the very same bytes
    let again = encode_dictionary(&d).unwrap();
    assert_eq!(again, bytes);
    // and it segments
    let seg = Segmenter::new(Mode::Normal, d, None);
    let tokens = seg.segment("abc").unwrap();
    let surfaces: Vec<&str> = tokens.iter().map(|t| t.text.as_str()).collect();
    assert_eq!(surfaces, vec!["ab", "c"]);
}

#[test]
fn building_twice_from_identical_input_is_byte_identical() {
    let a = build_dictionary_data(LEXICON, MATRIX, meta()).unwrap();
    let b = build_dictionary_data(LEXICON, MATRIX, meta()).unwrap();
    assert_eq!(a, b);
}

#[test]
fn schema_mismatch_names_a_format_error() {
    // the metadata declares 5 fields but this row has 4
    let bad = "ab,0,0,10\n";
    let err = build_dictionary_data(bad, MATRIX, meta()).unwrap_err();
    assert_eq!(err.kind(), LinderaErrorKind::Format);
}

#[test]
fn malformed_numbers_are_format_errors() {
    let bad = "ab,zero,0,10,N\n";
    assert!(build_dictionary_data(bad, MATRIX, meta()).is_err());
    let bad_matrix = "1 1\n0 0 zero\n";
    assert!(build_dictionary_data(LEXICON, bad_matrix, meta()).is_err());
}

#[test]
fn incomplete_matrix_is_a_format_error() {
    let short = "2 2\n0 0 0\n";
    assert!(build_dictionary_data(LEXICON, short, meta()).is_err());
}

#[test]
fn corrupt_magic_is_rejected() {
    let mut bytes = build_dictionary_data(LEXICON, MATRIX, meta()).unwrap();
    bytes[0] = 0x00;
    let err = load_dictionary_bytes(bytes.as_slice()).unwrap_err();
    assert_eq!(err.kind(), LinderaErrorKind::Format);
}

#[test]
fn version_mismatch_is_rejected() {
    let mut bytes = build_dictionary_data(LEXICON, MATRIX, meta()).unwrap();
    bytes[4] = 0xFF;
    let err = load_dictionary_bytes(bytes.as_slice()).unwrap_err();
    assert_eq!(err.kind(), LinderaErrorKind::Format);
    assert!(err.message().contains("version"));
}

#[test]
fn truncated_bytes_are_rejected() {
    let bytes = build_dictionary_data(LEXICON, MATRIX, meta()).unwrap();
    let cut = &bytes[..bytes.len() - 1];
    assert!(load_dictionary_bytes(cut).is_err());
}

#[test]
fn trailing_garbage_is_rejected() {
    let mut bytes = build_dictionary_data(LEXICON, MATRIX, meta()).unwrap();
    bytes.push(0x00);
    // a trailing byte cannot complete a 4-byte cost cell
    assert!(load_dictionary_bytes(bytes.as_slice()).is_err());
}

#[test]
fn user_dictionary_builds_against_the_main_dictionary() {
    let bytes = build_dictionary_data(LEXICON, MATRIX, meta()).unwrap();
    let d = load_dictionary_bytes(bytes.as_slice()).unwrap();
    let u = build_user_dictionary_data("abc,0,0,-1,custom\n", &meta(), &d).unwrap();
    assert_eq!(u.entries.len(), 1);
    let seg = Segmenter::new(Mode::Normal, d, Some(u));
    let tokens = seg.segment("abc").unwrap();
    assert_eq!(tokens.len(), 1);
    assert_eq!(tokens[0].details, vec![String::from("custom")]);
}

#[test]
fn out_of_range_category_id_is_a_format_error() {
    // left_id 7 does not fit a 1x1 matrix
    let bad = "ab,7,0,10,N\n";
    let err = build_dictionary_data(bad, MATRIX, meta()).unwrap_err();
    assert_eq!(err.kind(), LinderaErrorKind::Format);
}

#[test]
fn user_dictionary_binary_round_trips() {
    let bytes = build_dictionary_data(LEXICON, MATRIX, meta()).unwrap();
    let d = load_dictionary_bytes(bytes.as_slice()).unwrap();
    let u = build_user_dictionary_data("abc,0,0,-1,custom\n", &meta(), &d).unwrap();
    let ub = encode_user_dictionary(&u).unwrap();
    let u2 = load_user_dictionary_bytes(ub.as_slice(), &d).unwrap();
    assert_eq!(u2.entries.len(), 1);
    let surface: String = u2.entries[0].surface.iter().collect();
    assert_eq!(surface, "abc");
    assert_eq!(u2.entries[0].word_cost, -1);
    assert_eq!(u2.entries[0].details, vec![String::from("custom")]);
    // the loaded overlay re-encodes to the very same bytes
    assert_eq!(encode_user_dictionary(&u2).unwrap(), ub);
}

#[test]
fn user_dictionary_version_mismatch_is_rejected() {
    let bytes = build_dictionary_data(LEXICON, MATRIX, meta()).unwrap();
    let d = load_dictionary_bytes(bytes.as_slice()).unwrap();
    let u = build_user_dictionary_data("abc,0,0,-1,custom\n", &meta(), &d).unwrap();
    let mut ub = encode_user_dictionary(&u).unwrap();
    ub[4] = 0xFF;
    let err = load_user_dictionary_bytes(ub.as_slice(), &d).unwrap_err();
    assert_eq!(err.kind(), LinderaErrorKind::Format);
    assert!(err.message().contains("version"));
}

#[test]
fn user_dictionary_with_oversized_ids_is_rejected_against_a_small_matrix() {
    let bytes = build_dictionary_data(LEXICON, MATRIX, meta()).unwrap();
    let d = load_dictionary_bytes(bytes.as_slice()).unwrap();
    // left_id 3 does not fit the 1x1 matrix of the main dictionary
    let err = build_user_dictionary_data("abc,3,0,-1,custom\n", &meta(), &d).unwrap_err();
    assert_eq!(err.kind(), LinderaErrorKind::Format);
}
