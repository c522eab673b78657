use fmc::manifest::{parse_manifest, ManifestValue, UpdateError};
use fmc::template::render_init_manifest;
use fmc::update::{update_manifest, Mutation};

fn b(s: &str) -> Vec<u8> {
    s.as_bytes().to_vec()
}

fn load_err(doc: &str) -> UpdateError {
    match parse_manifest(&b(doc)) {
        Ok(_) => panic!("document should be rejected"),
        Err(e) => e,
    }
}

#[test]
fn whitespace_everywhere_is_tolerated() {
    let input = b("\n\t {\r\n\t\"version\" \t:\n\"1.2.3\" , \"name\":\t\"x\" }\r\n ");
    let out = update_manifest(&input, &Mutation::Normalize).unwrap();
    assert_eq!(
        out,
        b("{\n  \"version\": \"1.2.3\",\n  \"name\": \"x\"\n}")
    );
}

#[test]
fn valid_json_values_of_wrong_shape_violate_schema() {
    assert_eq!(load_err("{\"a\": null}"), UpdateError::SchemaViolation);
    assert_eq!(load_err("{\"a\": true}"), UpdateError::SchemaViolation);
    assert_eq!(load_err("{\"a\": false}"), UpdateError::SchemaViolation);
    assert_eq!(load_err("{\"a\": 1.5e3}"), UpdateError::SchemaViolation);
    assert_eq!(load_err("{\"a\": -0.25}"), UpdateError::SchemaViolation);
    assert_eq!(load_err("{\"a\": {\"b\": [1, {}]}}"), UpdateError::SchemaViolation);
    assert_eq!(load_err("{\"a\": [[\"x\"], 2]}"), UpdateError::SchemaViolation);
}

#[test]
fn broken_grammar_is_corrupt_even_after_a_bad_shape() {
    assert_eq!(load_err("{\"a\": 5, }"), UpdateError::ManifestCorrupt);
    assert_eq!(load_err("{\"a\": 5, ZZZ}"), UpdateError::ManifestCorrupt);
    assert_eq!(load_err("{\"a\": 01}"), UpdateError::ManifestCorrupt);
    assert_eq!(load_err("{\"a\": nullx}"), UpdateError::ManifestCorrupt);
    assert_eq!(load_err("{\"a\": .5}"), UpdateError::ManifestCorrupt);
    assert_eq!(load_err("{\"a\": 1.}"), UpdateError::ManifestCorrupt);
    assert_eq!(load_err("{\"a\": -x}"), UpdateError::ManifestCorrupt);
}

#[test]
fn unterminated_documents_are_corrupt() {
    assert_eq!(load_err(""), UpdateError::ManifestCorrupt);
    assert_eq!(load_err("{"), UpdateError::ManifestCorrupt);
    assert_eq!(load_err("{\"a\""), UpdateError::ManifestCorrupt);
    assert_eq!(load_err("{\"a\": \"b"), UpdateError::ManifestCorrupt);
    assert_eq!(load_err("{\"a\": \"b\","), UpdateError::ManifestCorrupt);
    assert_eq!(load_err("{\"a\": \"b\"x}"), UpdateError::ManifestCorrupt);
}

#[test]
fn bad_escapes_are_corrupt() {
    assert_eq!(load_err("{\"a\": \"\\q\"}"), UpdateError::ManifestCorrupt);
    assert_eq!(load_err("{\"a\": \"\\u12\"}"), UpdateError::ManifestCorrupt);
    assert_eq!(load_err("{\"a\": \"\\u12zz\"}"), UpdateError::ManifestCorrupt);
    assert_eq!(load_err("{\"a\": \"\t\"}"), UpdateError::ManifestCorrupt);
}

#[test]
fn empty_object_parses_and_has_no_entries() {
    let m = parse_manifest(&b("{}")).unwrap();
    assert_eq!(m.entries.len(), 0);
    let m2 = parse_manifest(&b(" { } ")).unwrap();
    assert_eq!(m2.entries.len(), 0);
}

#[test]
fn dependencies_entries_are_parsed_in_order() {
    let m = parse_manifest(&b("{\"dependencies\": [\"base\", \"? extra >= 1.0\"]}")).unwrap();
    assert_eq!(m.entries.len(), 1);
    match &m.entries[0].1 {
        ManifestValue::StrArr(items) => {
            assert_eq!(items.len(), 2);
            assert_eq!(items[0], b("base"));
            assert_eq!(items[1], b("? extra >= 1.0"));
        }
        ManifestValue::Str(_) => panic!("dependencies should be an array"),
    }
}

#[test]
fn non_ascii_content_survives_untouched() {
    let input = b("{\"version\":\"1.2.3\",\"title\":\"m\u{00e9}moire \u{1f600}\"}");
    let out = update_manifest(&input, &Mutation::Normalize).unwrap();
    assert_eq!(
        out,
        b("{\n  \"version\": \"1.2.3\",\n  \"title\": \"m\u{00e9}moire \u{1f600}\"\n}")
    );
}

#[test]
fn init_escapes_awkward_directory_names() {
    let out = render_init_manifest(&b("a\"b\\c"), &b("ada"));
    let m = parse_manifest(&out).unwrap();
    match &m.entries[0].1 {
        ManifestValue::Str(c) => assert_eq!(c, &b("a\\\"b\\\\c")),
        ManifestValue::StrArr(_) => panic!("name should be a string"),
    }
}

#[test]
fn init_escapes_control_bytes() {
    let out = render_init_manifest(&b("a\tb"), &b("line\nbreak\u{1}"));
    let again = update_manifest(&out, &Mutation::Normalize).unwrap();
    assert_eq!(out, again);
    let m = parse_manifest(&out).unwrap();
    match &m.entries[3].1 {
        ManifestValue::Str(c) => assert_eq!(c, &b("line\\nbreak\\u0001")),
        ManifestValue::StrArr(_) => panic!("author should be a string"),
    }
}
