use tika_magic::compile::{actions_to_rules, match_to_rule, mime_to_short_name};
use tika_magic::document::{Magic, Match, MimeType, Offset};
use tika_magic::errors::BuildError;
use tika_magic::rule_regexes::RuleRegexes;
use tika_magic::rules::MatchRule;

fn leaf(value: &str, match_type: &str, offset: Option<Offset>) -> Match {
    Match {
        value: Some(value.to_string()),
        match_type: match_type.to_string(),
        offset,
        mask: None,
        sub_matches: vec![],
    }
}

fn mime(mime_type: &str, magics: Vec<Magic>) -> MimeType {
    MimeType {
        mime_type: mime_type.to_string(),
        globs: vec![],
        magics,
        aliases: vec![],
        sub_classes: vec![],
        root_xml: vec![],
    }
}

#[test]
fn test_actions_to_rules() {
    let def = mime(
        "application/zip",
        vec![Magic {
            priority: 50,
            matches: vec![
                leaf("PK\\003\\004", "string", Some(Offset::Start(0))),
                leaf("PK\\005\\006", "string", Some(Offset::Start(0))),
                leaf("PK\\x07\\x08", "string", Some(Offset::Start(0))),
            ],
        }],
    );

    let rule = actions_to_rules(&def).unwrap();
    let matches = match &rule {
        MatchRule::Or(rules) => rules,
        _ => panic!("Expected Or rule"),
    };

    assert_eq!(matches.len(), 3);
    assert_eq!(matches[0], MatchRule::Str(0, [0x50, 0x4B, 0x03, 0x04].to_vec()));
    assert_eq!(matches[1], MatchRule::Str(0, [0x50, 0x4B, 0x05, 0x06].to_vec()));
    assert_eq!(matches[2], MatchRule::Str(0, [0x50, 0x4B, 0x07, 0x08].to_vec()));
}

#[test]
fn test_value_match_rules() {
    // GUID-style nesting: little32, then little16s, then two
    // alternative tails
    let tail_a = leaf("0xAEB15378D02996D3", "string", Some(Offset::Start(8)));
    let tail_b = leaf("0xAEB15378D02996D4", "string", Some(Offset::Start(8)));
    let mut inner16 = leaf("0x4DA7", "little16", Some(Offset::Start(6)));
    inner16.sub_matches = vec![tail_a, tail_b];
    let mut outer16 = leaf("0xD88C", "little16", Some(Offset::Start(4)));
    outer16.sub_matches = vec![inner16];
    let mut root = leaf("0x7B5C52E4", "little32", Some(Offset::Start(0)));
    root.sub_matches = vec![outer16];
    let def = mime("application/onenote;format=one", vec![Magic { priority: 50, matches: vec![root] }]);

    let rule = actions_to_rules(&def).unwrap();
    let matches = match &rule {
        MatchRule::And(rules) => rules,
        _ => panic!("Expected And rule"),
    };

    assert_eq!(matches.len(), 4);
    assert_eq!(matches[0], MatchRule::ValueU32(0, vec![228, 82, 92, 123]));
    assert_eq!(matches[1], MatchRule::ValueU16(4, vec![140, 216]));
    assert_eq!(matches[2], MatchRule::ValueU16(6, vec![167, 77]));
    let compound_matches = match &matches[3] {
        MatchRule::Or(rules) => rules,
        _ => panic!("Expected Or rule"),
    };
    assert_eq!(compound_matches.len(), 2);
    assert_eq!(compound_matches[0], MatchRule::Str(8, [174, 177, 83, 120, 208, 41, 150, 211].to_vec()));
    assert_eq!(compound_matches[1], MatchRule::Str(8, [174, 177, 83, 120, 208, 41, 150, 212].to_vec()));
}

#[test]
fn big_endian_sixteen_bit() {
    let rule = match_to_rule(&leaf("0x1234", "big16", Some(Offset::Start(0)))).unwrap();
    assert_eq!(rule, MatchRule::ValueU16(0, vec![0x12, 0x34]));
    let rule = match_to_rule(&leaf("0x1234", "little16", Some(Offset::Start(0)))).unwrap();
    assert_eq!(rule, MatchRule::ValueU16(0, vec![0x34, 0x12]));
}

#[test]
fn unknown_match_type_is_fatal() {
    let bad = leaf("x", "nonsense", Some(Offset::Start(0)));
    assert_eq!(match_to_rule(&bad).unwrap_err(), BuildError::UnhandledMatch);
    // an unhandled attribute combination as well
    let bad = leaf("x", "stringignorecase", None);
    assert_eq!(match_to_rule(&bad).unwrap_err(), BuildError::UnhandledMatch);
}

#[test]
fn bad_regex_degrades_to_placeholder() {
    let mut bad = leaf("(", "regex", Some(Offset::Start(0)));
    // sub-matches behind a degraded regex are never examined
    bad.sub_matches = vec![leaf("x", "nonsense", None)];
    assert_eq!(match_to_rule(&bad).unwrap(), MatchRule::Empty);
    let good = leaf("^(?i)<html", "regex", Some(Offset::Start(0)));
    assert_eq!(match_to_rule(&good).unwrap(), MatchRule::Regex(0, "^(?i)<html".to_string()));
}

#[test]
fn empty_string_rule() {
    let empty = Match {
        value: None,
        match_type: "string".to_string(),
        offset: None,
        mask: None,
        sub_matches: vec![],
    };
    assert_eq!(match_to_rule(&empty).unwrap(), MatchRule::Empty);
}

#[test]
fn masked_rules() {
    let mut m = leaf("0x06092a864886f70d0107FFa0", "string", Some(Offset::Start(2)));
    m.mask = Some("0xFFFFFFFFFFFFFFFFFFFF00FF".to_string());
    match match_to_rule(&m).unwrap() {
        MatchRule::StrMask(off, needle, mask) => {
            assert_eq!(off, 2);
            assert_eq!(needle.len(), 12);
            assert_eq!(mask, vec![0xFF, 0xFF, 0xFF, 0xFF, 0xFF, 0xFF, 0xFF, 0xFF, 0xFF, 0xFF, 0x00, 0xFF]);
        },
        other => panic!("expected a masked rule, got {:?}", other),
    }
}

#[test]
fn short_names() {
    assert_eq!(mime_to_short_name("image/png"), "T_png_image");
    assert_eq!(mime_to_short_name("application/vnd.ms-excel"), "T_vnd_ms_excel_application");
    assert_eq!(mime_to_short_name("application/onenote;format=one"), "T_onenote_format_one_application");
}

#[test]
fn regex_cache() {
    let mut cache = RuleRegexes::default();
    cache.insert("^<html");
    cache.insert("^<svg");
    cache.insert("^<html");
    assert_eq!(cache.get_index("^<html"), Some(0));
    assert_eq!(cache.get_index("^<svg"), Some(1));
    assert_eq!(cache.get_index("^<xml"), None);
    let pairs = cache.cloned_iter();
    assert_eq!(pairs.len(), 2);
    assert_eq!(pairs[0], ("^<html".to_string(), 0));
    assert_eq!(pairs[1], ("^<svg".to_string(), 1));
}
