use fmc::manifest::{parse_manifest, ManifestValue, UpdateError};
use fmc::update::{update_manifest, Mutation};

fn b(s: &str) -> Vec<u8> {
    s.as_bytes().to_vec()
}

fn version_of(doc: &Vec<u8>) -> Vec<u8> {
    let m = parse_manifest(doc).expect("document should load");
    for (key, val) in m.entries.iter() {
        if key == &b("version") {
            match val {
                ManifestValue::Str(c) => return c.clone(),
                ManifestValue::StrArr(_) => panic!("version should be a string"),
            }
        }
    }
    panic!("no version entry");
}

#[test]
fn minor_bump() {
    let input = b("{\"name\":\"x\",\"version\":\"1.2.3\"}");
    let out = update_manifest(&input, &Mutation::BumpMinor).unwrap();
    assert_eq!(version_of(&out), b("1.2.4"));
}

#[test]
fn minor_bump_exact_bytes() {
    let input = b("{\"name\":\"x\",\"version\":\"1.2.3\"}");
    let out = update_manifest(&input, &Mutation::BumpMinor).unwrap();
    assert_eq!(
        out,
        b("{\n  \"name\": \"x\",\n  \"version\": \"1.2.4\"\n}")
    );
}

#[test]
fn middle_bump_does_not_reset_minor() {
    let input = b("{\"version\":\"1.2.3\"}");
    let out = update_manifest(&input, &Mutation::BumpMiddle).unwrap();
    assert_eq!(version_of(&out), b("1.3.3"));
}

#[test]
fn major_bump_keeps_lower_components() {
    let input = b("{\"version\":\"1.2.3\"}");
    let out = update_manifest(&input, &Mutation::BumpMajor).unwrap();
    assert_eq!(version_of(&out), b("2.2.3"));
}

#[test]
fn set_version_truncates_to_three() {
    let input = b("{\"version\":\"1.2.3\"}");
    let out = update_manifest(&input, &Mutation::SetVersion(b("7.8.9.10"))).unwrap();
    assert_eq!(version_of(&out), b("7.8.9"));
}

#[test]
fn set_version_short_is_kept_verbatim() {
    let input = b("{\"version\":\"1.2.3\"}");
    let out = update_manifest(&input, &Mutation::SetVersion(b("7.8"))).unwrap();
    assert_eq!(version_of(&out), b("7.8"));
}

#[test]
fn corrupt_manifest_fails_without_output() {
    let input = b("not json");
    assert_eq!(
        update_manifest(&input, &Mutation::BumpMinor),
        Err(UpdateError::ManifestCorrupt)
    );
}

#[test]
fn non_object_document_is_corrupt() {
    assert_eq!(
        update_manifest(&b("5"), &Mutation::Normalize),
        Err(UpdateError::ManifestCorrupt)
    );
    assert_eq!(
        update_manifest(&b("[\"x\"]"), &Mutation::Normalize),
        Err(UpdateError::ManifestCorrupt)
    );
}

#[test]
fn trailing_garbage_is_corrupt() {
    assert_eq!(
        update_manifest(&b("{\"version\":\"1.2.3\"} x"), &Mutation::Normalize),
        Err(UpdateError::ManifestCorrupt)
    );
}

#[test]
fn non_string_value_is_schema_violation() {
    assert_eq!(
        update_manifest(&b("{\"version\": 5}"), &Mutation::Normalize),
        Err(UpdateError::SchemaViolation)
    );
    assert_eq!(
        update_manifest(&b("{\"version\":\"1.2.3\",\"count\": 3}"), &Mutation::Normalize),
        Err(UpdateError::SchemaViolation)
    );
}

#[test]
fn dependencies_must_be_an_array_of_strings() {
    assert_eq!(
        update_manifest(
            &b("{\"version\":\"1.2.3\",\"dependencies\":\"base\"}"),
            &Mutation::Normalize
        ),
        Err(UpdateError::SchemaViolation)
    );
    assert_eq!(
        update_manifest(
            &b("{\"version\":\"1.2.3\",\"dependencies\":[5]}"),
            &Mutation::Normalize
        ),
        Err(UpdateError::SchemaViolation)
    );
}

#[test]
fn bump_needs_enough_components() {
    assert_eq!(
        update_manifest(&b("{\"version\":\"1.2\"}"), &Mutation::BumpMinor),
        Err(UpdateError::SchemaViolation)
    );
    assert_eq!(
        update_manifest(&b("{\"version\":\"\"}"), &Mutation::BumpMajor),
        Err(UpdateError::SchemaViolation)
    );
}

#[test]
fn missing_version_is_schema_violation() {
    assert_eq!(
        update_manifest(&b("{\"name\":\"x\"}"), &Mutation::Normalize),
        Err(UpdateError::SchemaViolation)
    );
    assert_eq!(
        update_manifest(&b("{}"), &Mutation::Normalize),
        Err(UpdateError::SchemaViolation)
    );
}

#[test]
fn normalize_is_idempotent() {
    let input = b("{ \"version\" : \"1.2.3.4\" , \"name\" : \"x\" }");
    let once = update_manifest(&input, &Mutation::Normalize).unwrap();
    let twice = update_manifest(&once, &Mutation::Normalize).unwrap();
    assert_eq!(once, twice);
}

#[test]
fn bump_output_is_stable_under_normalize() {
    let input = b("{\"version\":\"0.9.9\",\"dependencies\":[\"base\", \"other >= 1.0\"]}");
    let out = update_manifest(&input, &Mutation::BumpMajor).unwrap();
    let again = update_manifest(&out, &Mutation::Normalize).unwrap();
    assert_eq!(out, again);
}

#[test]
fn normalize_truncates_long_version() {
    let input = b("{\"version\":\"1.2.3.4\"}");
    let out = update_manifest(&input, &Mutation::Normalize).unwrap();
    assert_eq!(version_of(&out), b("1.2.3"));
}

#[test]
fn escaped_version_digits_are_decoded() {
    let input = b("{\"version\":\"1.2.\\u0033\"}");
    let out = update_manifest(&input, &Mutation::BumpMinor).unwrap();
    assert_eq!(version_of(&out), b("1.2.4"));
}

#[test]
fn escaped_dots_split_version_groups() {
    let input = b("{\"version\":\"7\\u002e8\\u002E9\"}");
    let out = update_manifest(&input, &Mutation::Normalize).unwrap();
    assert_eq!(version_of(&out), b("7.8.9"));
}

#[test]
fn plus_signed_components_parse_and_are_normalized() {
    let input = b("{\"version\":\"1.+2.3\"}");
    let out = update_manifest(&input, &Mutation::BumpMinor).unwrap();
    assert_eq!(version_of(&out), b("1.2.4"));
}

#[test]
fn unparseable_components_are_dropped() {
    let input = b("{\"version\":\"1.a.3\"}");
    let out = update_manifest(&input, &Mutation::Normalize).unwrap();
    assert_eq!(version_of(&out), b("1.3"));
}

#[test]
fn key_order_is_preserved() {
    let input = b("{\"zeta\":\"1\",\"version\":\"1.2.3\",\"alpha\":\"2\"}");
    let out = update_manifest(&input, &Mutation::Normalize).unwrap();
    assert_eq!(
        out,
        b("{\n  \"zeta\": \"1\",\n  \"version\": \"1.2.3\",\n  \"alpha\": \"2\"\n}")
    );
}

#[test]
fn unknown_string_keys_pass_through() {
    let input = b("{\"version\":\"1.2.3\",\"homepage\":\"https://example.test\"}");
    let out = update_manifest(&input, &Mutation::Normalize).unwrap();
    let m = parse_manifest(&out).unwrap();
    assert_eq!(m.entries.len(), 2);
    assert_eq!(m.entries[1].0, b("homepage"));
}

#[test]
fn string_escapes_survive_round_trip() {
    let input = b("{\"version\":\"1.2.3\",\"title\":\"a \\\"b\\\" \\u00e9 c\"}");
    let out = update_manifest(&input, &Mutation::Normalize).unwrap();
    assert_eq!(
        out,
        b("{\n  \"version\": \"1.2.3\",\n  \"title\": \"a \\\"b\\\" \\u00e9 c\"\n}")
    );
}

#[test]
fn empty_dependencies_are_kept() {
    let input = b("{\"version\":\"1.2.3\",\"dependencies\":[]}");
    let out = update_manifest(&input, &Mutation::Normalize).unwrap();
    assert_eq!(
        out,
        b("{\n  \"version\": \"1.2.3\",\n  \"dependencies\": []\n}")
    );
}

#[test]
fn bump_overflow_is_schema_violation() {
    let input = b("{\"version\":\"1.2.4294967295\"}");
    assert_eq!(
        update_manifest(&input, &Mutation::BumpMinor),
        Err(UpdateError::SchemaViolation)
    );
}
