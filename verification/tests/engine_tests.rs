use tika_magic::compile::compile;
use tika_magic::document::{Alias, Magic, Match, MimeType, Offset, SubClass};
use tika_magic::errors::BuildError;
use tika_magic::registry::Registry;
use tika_magic::{from_u8, from_u8_exhaustive, match_u8};

fn leaf(value: &str, match_type: &str, offset: Option<Offset>) -> Match {
    Match {
        value: Some(value.to_string()),
        match_type: match_type.to_string(),
        offset,
        mask: None,
        sub_matches: vec![],
    }
}

fn simple_type(mime: &str, priority: u32, value: &str) -> MimeType {
    MimeType {
        mime_type: mime.to_string(),
        globs: vec![],
        magics: vec![Magic { priority, matches: vec![leaf(value, "string", Some(Offset::Start(0)))] }],
        aliases: vec![],
        sub_classes: vec![],
        root_xml: vec![],
    }
}

fn small_registry() -> Registry {
    let mut gif = simple_type("image/gif", 50, "GIF8");
    gif.aliases.push(Alias { alias_type: Some("image/x-gif".to_string()) });
    let png = simple_type("image/png", 50, "\\x89PNG");
    let zip = simple_type("application/zip", 50, "PK\\003\\004");
    compile(&vec![gif, png, zip]).unwrap()
}

#[test]
fn classify_samples() {
    let reg = small_registry();
    assert_eq!(from_u8(&reg, b"GIF89a-some-image-data"), "image/gif");
    assert_eq!(from_u8(&reg, b"\x89PNG\r\n\x1a\n...."), "image/png");
    assert_eq!(from_u8(&reg, b"who knows what this is"), "application/octet-stream");
}

#[test]
fn match_samples() {
    let reg = small_registry();
    assert!(match_u8(&reg, "image/gif", b"GIF89a"));
    assert!(!match_u8(&reg, "image/png", b"GIF89a"));
    // an alias resolves to its canonical checker
    assert!(match_u8(&reg, "image/x-gif", b"GIF89a"));
    // an unregistered mime string never matches and never errors
    assert!(!match_u8(&reg, "application/does-not-exist", b"GIF89a"));
}

#[test]
fn classify_is_total() {
    let reg = small_registry();
    assert_eq!(from_u8(&reg, b""), "application/octet-stream");
    assert_eq!(from_u8(&reg, &[0u8; 64]), "application/octet-stream");
    // an unresolvable four-byte buffer
    assert_eq!(from_u8(&reg, b"\x01\x02\x03\x04"), "application/octet-stream");
    let noise: Vec<u8> = (0..255u8).rev().collect();
    let got = from_u8(&reg, &noise);
    assert!(!got.is_empty());
}

#[test]
fn exhaustive_is_superset_of_best() {
    let reg = small_registry();
    let best = from_u8(&reg, b"GIF89a");
    let all = from_u8_exhaustive(&reg, b"GIF89a");
    assert!(all.contains(&best));
    assert_eq!(from_u8_exhaustive(&reg, b"nothing at all"), Vec::<String>::new());
}

#[test]
fn specificity_prefers_the_child() {
    // a generic RIFF container and a more specific AVI subclass
    let riff = simple_type("application/x-riff", 50, "RIFF");
    let mut avi = MimeType {
        mime_type: "video/x-msvideo".to_string(),
        globs: vec![],
        magics: vec![Magic {
            priority: 50,
            matches: vec![leaf("AVI ", "string", Some(Offset::Start(8)))],
        }],
        aliases: vec![],
        sub_classes: vec![SubClass { class_type: Some("application/x-riff".to_string()) }],
        root_xml: vec![],
    };
    avi.globs = vec![];
    let reg = compile(&vec![riff, avi]).unwrap();
    assert_eq!(from_u8(&reg, b"RIFF\x00\x00\x00\x00AVI LIST"), "video/x-msvideo");
    // without the child marker the container keeps its own type
    assert_eq!(from_u8(&reg, b"RIFF\x00\x00\x00\x00WAVEfmt "), "application/x-riff");
}

#[test]
fn priority_prefers_the_higher_root() {
    // disjoint signatures over overlapping prefixes
    let high = simple_type("application/x-strong", 80, "AB");
    let low = simple_type("application/x-weak", 10, "ABC");
    let reg = compile(&vec![low, high]).unwrap();
    // both signatures match; the strictly higher priority wins
    assert_eq!(from_u8(&reg, b"ABCD"), "application/x-strong");
    // both appear in the exhaustive set, priority order first
    let all = from_u8_exhaustive(&reg, b"ABCD");
    assert_eq!(all, vec!["application/x-strong".to_string(), "application/x-weak".to_string()]);
}

#[test]
fn duplicate_definitions_are_fatal() {
    let a = simple_type("image/gif", 50, "GIF8");
    let b = simple_type("image/gif", 40, "GIF9");
    match compile(&vec![a, b]) {
        Err(e) => assert_eq!(e, BuildError::DuplicateType),
        Ok(_) => panic!("expected a duplicate-type error"),
    }
}

#[test]
fn cyclic_hierarchy_is_fatal() {
    let mut a = simple_type("application/x-first", 50, "AA");
    a.sub_classes = vec![SubClass { class_type: Some("application/x-second".to_string()) }];
    let mut b = simple_type("application/x-second", 50, "BB");
    b.sub_classes = vec![SubClass { class_type: Some("application/x-first".to_string()) }];
    match compile(&vec![a, b]) {
        Err(e) => assert_eq!(e, BuildError::CyclicHierarchy),
        Ok(_) => panic!("expected a cycle error"),
    }
}

#[test]
fn bad_rule_reports_first_error() {
    let good = simple_type("image/gif", 50, "GIF8");
    let bad = simple_type("application/x-bad", 50, "0xZZ");
    match compile(&vec![good, bad]) {
        Err(e) => assert_eq!(e, BuildError::BadValue),
        Ok(_) => panic!("expected a value error"),
    }
}

#[test]
fn virtual_nodes_group_children() {
    // a virtual parent with no signature of its own still routes
    // classification into its children
    let parent = MimeType {
        mime_type: "application/x-family".to_string(),
        globs: vec![],
        magics: vec![],
        aliases: vec![],
        sub_classes: vec![],
        root_xml: vec![],
    };
    let mut child = simple_type("application/x-member", 50, "MEMB");
    child.sub_classes = vec![SubClass { class_type: Some("application/x-family".to_string()) }];
    let reg = compile(&vec![parent, child]).unwrap();
    assert_eq!(from_u8(&reg, b"MEMBxx"), "application/x-member");
    // the virtual parent itself never wins
    assert_eq!(from_u8(&reg, b"none"), "application/octet-stream");
}

#[test]
fn regex_rules_classify() {
    let html = MimeType {
        mime_type: "text/html".to_string(),
        globs: vec![],
        magics: vec![Magic {
            priority: 60,
            matches: vec![leaf("(?i)<(html|head|body|title|div)[ >]", "regex", Some(Offset::Start(0)))],
        }],
        aliases: vec![],
        sub_classes: vec![],
        root_xml: vec![],
    };
    let reg = compile(&vec![html]).unwrap();
    assert_eq!(from_u8(&reg, b"<HTML ><p>hi</p>"), "text/html");
    assert_eq!(from_u8(&reg, b"plain text"), "application/octet-stream");
}
