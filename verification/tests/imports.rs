use sshdconfig::error::SshdConfigError;
use sshdconfig::keyword::{keyword_type_eq, KeywordType};
use sshdconfig::fingerprint::{fingerprint, ManagedFileRecord};
use sshdconfig::pipeline::Invoke;
use sshdconfig::snapshot::{coerce_value, ConfigData};

fn s(x: &str) -> String {
    x.to_string()
}

#[test]
fn import_sshd_config_marks_entries_explicit() {
    let mut cd = ConfigData::new();
    cd.import_sshd_config(&s("PasswordAuthentication yes\nPort 1234\n"))
        .expect("well-formed text imports");
    let pa = cd.find("PasswordAuthentication").expect("imported");
    assert!(!pa.is_default);
    assert!(keyword_type_eq(&pa.value, &KeywordType::Flag(true)));
    let port = cd.find("Port").expect("imported");
    assert!(!port.is_default);
    assert!(keyword_type_eq(&port.value, &KeywordType::SingleValue(s("1234"))));
}

#[test]
fn import_skips_comments_and_blank_lines() {
    let mut cd = ConfigData::new();
    cd.import_sshd_config(&s("# managed by hand\n\nPort 22\n"))
        .expect("comments and blanks are skipped");
    assert!(cd.find("Port").is_some());
    assert!(cd.find("# managed by hand").is_none());
}

#[test]
fn import_rejects_a_line_with_no_keyword() {
    let mut cd = ConfigData::new();
    let r = cd.import_sshd_config(&s(" 1234\n"));
    assert_eq!(r.unwrap_err(), SshdConfigError::ParseError);
    assert!(cd.find("1234").is_none());
}

#[test]
fn import_json_reads_the_structured_document() {
    let mut cd = ConfigData::new();
    cd.import_json(&s("{\"Ciphers\":\"aes128-ctr,chacha20-poly1305\",\"Port\":\"22\",\"UsePAM\":null}"))
        .expect("well-formed document imports");
    let ciphers = cd.find("Ciphers").expect("imported");
    assert!(keyword_type_eq(
        &ciphers.value,
        &KeywordType::MultiValue(vec![s("aes128-ctr"), s("chacha20-poly1305")])
    ));
    assert!(keyword_type_eq(&cd.find("UsePAM").unwrap().value, &KeywordType::Absent));
}

#[test]
fn import_json_rejects_malformed_text() {
    let mut cd = ConfigData::new();
    assert_eq!(
        cd.import_json(&s("{\"Port\":1234}")).unwrap_err(),
        SshdConfigError::ParseError
    );
    assert_eq!(
        cd.import_json(&s("Port 1234")).unwrap_err(),
        SshdConfigError::ParseError
    );
    assert!(cd.find("Port").is_none());
}

#[test]
fn scalar_promotes_to_list_only_for_list_keywords() {
    // the keyword is known to be a list: a bare scalar becomes a one-element list
    let mut cd = ConfigData::seed_defaults(&vec![(
        s("Ciphers"),
        KeywordType::MultiValue(vec![s("aes128-ctr"), s("aes256-ctr")]),
    )])
    .expect("defaults seed");
    cd.merge_explicit(&vec![(s("Ciphers"), KeywordType::SingleValue(s("chacha20-poly1305")))])
        .expect("scalar promotes");
    let e = cd.find("Ciphers").expect("present");
    assert!(keyword_type_eq(
        &e.value,
        &KeywordType::MultiValue(vec![s("chacha20-poly1305")])
    ));
    // a flag keyword given a list is rejected, and nothing changes
    let mut cd2 = ConfigData::seed_defaults(&vec![(s("UsePAM"), KeywordType::Flag(true))])
        .expect("defaults seed");
    let r = cd2.merge_explicit(&vec![(
        s("UsePAM"),
        KeywordType::MultiValue(vec![s("yes"), s("no")]),
    )]);
    assert_eq!(r.unwrap_err(), SshdConfigError::MalformedKeyword);
    assert!(cd2.find("UsePAM").unwrap().is_default);
}

#[test]
fn coercion_policy_on_plain_values() {
    let list = KeywordType::MultiValue(vec![s("a")]);
    let scalar = KeywordType::SingleValue(s("x"));
    assert!(coerce_value(None, &scalar).is_ok());
    let existing = sshdconfig::keyword::SubContainer { value: list, is_default: true };
    let promoted = coerce_value(Some(&existing), &scalar).expect("promotes");
    assert!(keyword_type_eq(&promoted, &KeywordType::MultiValue(vec![s("x")])));
    let flag_existing = sshdconfig::keyword::SubContainer {
        value: KeywordType::Flag(true),
        is_default: true,
    };
    assert_eq!(
        coerce_value(Some(&flag_existing), &KeywordType::SingleValue(s("x"))).unwrap_err(),
        SshdConfigError::MalformedKeyword
    );
}

#[test]
fn update_rejects_a_mismatched_diff() {
    let base = ConfigData::build_from_pairs(
        &vec![(s("Port"), KeywordType::SingleValue(s("22")))],
        true,
    )
    .expect("builds");
    let bogus = vec![sshdconfig::reconcile::DiffEntry {
        keyword: s("Port"),
        entry: sshdconfig::keyword::SubContainer {
            value: KeywordType::SingleValue(s("2222")),
            is_default: false,
        },
        kind: sshdconfig::keyword::UpdateKind::Add, // Port already exists
    }];
    assert_eq!(base.update(&bogus).unwrap_err(), SshdConfigError::InconsistentDiff);
}

#[test]
fn get_reports_unknown_requested_names() {
    let cd = ConfigData::build_from_pairs(
        &vec![(s("Port"), KeywordType::SingleValue(s("22")))],
        true,
    )
    .expect("builds");
    let content: Vec<u8> = b"Port 22\n".to_vec();
    let record = ManagedFileRecord { fingerprint: fingerprint(&content), backup_exists: true };
    let doc = Invoke::get(&cd, &Some(vec![s("Port")]), &record, &content).expect("known name");
    assert_eq!(doc, "{\"Port\":\"22\"}");
    assert_eq!(
        Invoke::get(&cd, &Some(vec![s("NoSuchKeyword")]), &record, &content).unwrap_err(),
        SshdConfigError::UnknownKeyword
    );
}

#[test]
fn fingerprint_matches_the_reference_values() {
    // 64-bit FNV-1a test vectors: the offset basis for empty input, and "a"
    assert_eq!(sshdconfig::fingerprint::fingerprint(&Vec::new()), 0xcbf29ce484222325);
    assert_eq!(sshdconfig::fingerprint::fingerprint(&vec![0x61]), 0xaf63dc4c8601ec8c);
}

#[test]
fn explicit_text_omits_default_entries() {
    let mut cd = ConfigData::seed_defaults(&vec![(s("Port"), KeywordType::SingleValue(s("22")))])
        .expect("defaults seed");
    cd.merge_explicit(&vec![(s("Banner"), KeywordType::SingleValue(s("/etc/banner")))])
        .expect("merges");
    let text = sshdconfig::codec::encode_explicit_directive_text(&cd);
    assert_eq!(text, "Banner /etc/banner\n");
}
