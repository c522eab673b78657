use fmc::args::{route, Action};
use fmc::config::Config;
use fmc::deps::parse_dependency;
use fmc::template::{init_action, render_init_manifest};
use fmc::update::{update_manifest, Mutation};
use fmc::version::{join_version, version_vector};

fn b(s: &str) -> Vec<u8> {
    s.as_bytes().to_vec()
}

#[test]
fn fresh_init_renders_full_manifest() {
    let out = render_init_manifest(&b("foo"), &b("ada"));
    let expected = "{\n  \"name\": \"foo\",\n  \"version\": \"0.0.1\",\n  \"title\": \"foo\",\n  \"author\": \"ada\",\n  \"factorio_version\": \"1.1\",\n  \"dependencies\": [\"base\"]\n}";
    assert_eq!(out, b(expected));
}

#[test]
fn init_writes_only_when_manifest_is_absent() {
    assert!(init_action(true, &b("foo"), &b("ada")).is_none());
    let written = init_action(false, &b("foo"), &b("ada")).unwrap();
    assert_eq!(written, render_init_manifest(&b("foo"), &b("ada")));
}

#[test]
fn init_output_is_a_loadable_fixed_point() {
    let out = render_init_manifest(&b("my mod \"x\""), &b("ada\nlovelace"));
    let again = update_manifest(&out, &Mutation::Normalize).unwrap();
    assert_eq!(out, again);
}

#[test]
fn version_vector_parses_digit_groups() {
    assert_eq!(version_vector(&b("1.2.3")), vec![1, 2, 3]);
    assert_eq!(version_vector(&b("10.0.300")), vec![10, 0, 300]);
    assert_eq!(version_vector(&b("")), Vec::<u32>::new());
    assert_eq!(version_vector(&b("a.b")), Vec::<u32>::new());
    assert_eq!(version_vector(&b("1..2")), vec![1, 2]);
    assert_eq!(version_vector(&b("007")), vec![7]);
}

#[test]
fn version_vector_accepts_a_leading_plus() {
    assert_eq!(version_vector(&b("1.+2.3")), vec![1, 2, 3]);
    assert_eq!(version_vector(&b("+7")), vec![7]);
    assert_eq!(version_vector(&b("+")), Vec::<u32>::new());
    assert_eq!(version_vector(&b("++1")), Vec::<u32>::new());
    assert_eq!(version_vector(&b("-0")), Vec::<u32>::new());
    assert_eq!(version_vector(&b("1+2")), Vec::<u32>::new());
}

#[test]
fn version_vector_drops_overflowing_groups() {
    assert_eq!(version_vector(&b("4294967295.1")), vec![4294967295, 1]);
    assert_eq!(version_vector(&b("4294967296.1")), vec![1]);
    assert_eq!(version_vector(&b("99999999999999999999.2")), vec![2]);
}

#[test]
fn join_version_renders_dotted_decimal() {
    assert_eq!(join_version(&vec![1, 2, 3]), b("1.2.3"));
    assert_eq!(join_version(&vec![0]), b("0"));
    assert_eq!(join_version(&Vec::new()), b(""));
    assert_eq!(version_vector(&join_version(&vec![10, 20])), vec![10, 20]);
}

#[test]
fn route_picks_the_verb() {
    assert!(matches!(route(&vec![b("init")]), Action::Init));
    assert!(matches!(route(&vec![b("new"), b("foo")]), Action::New(n) if n == b("foo")));
    assert!(matches!(route(&vec![b("new")]), Action::Usage));
    assert!(matches!(route(&vec![b("frobnicate")]), Action::Nop));
    assert!(matches!(route(&Vec::new()), Action::Usage));
}

#[test]
fn route_picks_the_mutation() {
    assert!(matches!(
        route(&vec![b("update")]),
        Action::Update(Mutation::Normalize)
    ));
    assert!(matches!(
        route(&vec![b("update"), b("minor")]),
        Action::Update(Mutation::BumpMinor)
    ));
    assert!(matches!(
        route(&vec![b("update"), b("middle")]),
        Action::Update(Mutation::BumpMiddle)
    ));
    assert!(matches!(
        route(&vec![b("update"), b("major")]),
        Action::Update(Mutation::BumpMajor)
    ));
    assert!(matches!(
        route(&vec![b("update"), b("set-version"), b("1.2.3")]),
        Action::Update(Mutation::SetVersion(v)) if v == b("1.2.3")
    ));
    assert!(matches!(
        route(&vec![b("update"), b("set-version")]),
        Action::Usage
    ));
    assert!(matches!(
        route(&vec![b("update"), b("sideways")]),
        Action::Update(Mutation::Normalize)
    ));
}

#[test]
fn dependency_with_prefix_and_version() {
    let d = parse_dependency(&b("! base >= 1.0")).unwrap();
    assert_eq!(d.prefix, Some(b("!")));
    assert_eq!(d.name, b("base"));
    assert_eq!(d.op_version, Some((b(">="), b("1.0"))));
}

#[test]
fn dependency_name_alone() {
    let d = parse_dependency(&b("base")).unwrap();
    assert_eq!(d.prefix, None);
    assert_eq!(d.name, b("base"));
    assert_eq!(d.op_version, None);
}

#[test]
fn dependency_optional_prefix_forms() {
    let d = parse_dependency(&b("(?) mod-a")).unwrap();
    assert_eq!(d.prefix, Some(b("(?)")));
    assert_eq!(d.name, b("mod-a"));
    let d2 = parse_dependency(&b("~ mod-b > 2")).unwrap();
    assert_eq!(d2.prefix, Some(b("~")));
    assert_eq!(d2.name, b("mod-b"));
    assert_eq!(d2.op_version, Some((b(">"), b("2"))));
    let d3 = parse_dependency(&b("? mod-c >")).unwrap();
    assert_eq!(d3.prefix, Some(b("?")));
    assert_eq!(d3.op_version, None);
}

#[test]
fn dependency_without_name_is_rejected() {
    assert!(parse_dependency(&b("")).is_none());
    assert!(parse_dependency(&b("   ")).is_none());
    assert!(parse_dependency(&b("?")).is_none());
}

#[test]
fn dependency_tolerates_trailing_tokens() {
    let d = parse_dependency(&b("? base >= 1.0 extra junk")).unwrap();
    assert_eq!(d.prefix, Some(b("?")));
    assert_eq!(d.name, b("base"));
    assert_eq!(d.op_version, Some((b(">="), b("1.0"))));
}

#[test]
fn config_keeps_the_author_snapshot() {
    let c = Config::new(String::from("ada"));
    assert_eq!(c.author(), "ada");
}
