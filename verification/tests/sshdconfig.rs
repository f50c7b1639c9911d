use sshdconfig::error::SshdConfigError;
use sshdconfig::fingerprint::{fingerprint, integrity_check, ManagedFileRecord};
use sshdconfig::keyword::{keyword_type_eq, KeywordType, UpdateKind};
use sshdconfig::pipeline::{commit_plan, finish_after_reload, DiskModel, Invoke, SetStage};
use sshdconfig::snapshot::ConfigData;

fn s(x: &str) -> String {
    x.to_string()
}

fn single(x: &str) -> KeywordType {
    KeywordType::SingleValue(s(x))
}

fn multi(xs: &[&str]) -> KeywordType {
    KeywordType::MultiValue(xs.iter().map(|x| s(x)).collect())
}

fn explicit_snapshot(pairs: Vec<(String, KeywordType)>) -> ConfigData {
    ConfigData::build_from_pairs(&pairs, true).expect("pairs should build")
}

fn record_for(content: &Vec<u8>) -> ManagedFileRecord {
    ManagedFileRecord { fingerprint: fingerprint(content), backup_exists: false }
}

#[test]
fn diff_of_identical_snapshots_is_empty() {
    let snap = explicit_snapshot(vec![
        (s("Port"), single("1234")),
        (s("PasswordAuthentication"), KeywordType::Flag(true)),
        (s("Ciphers"), multi(&["aes128", "chacha20"])),
    ]);
    let diff = snap.compare(&snap);
    assert_eq!(diff.len(), 0);
}

#[test]
fn diff_is_deterministic_and_sorted() {
    let base = explicit_snapshot(vec![
        (s("Port"), single("22")),
        (s("Banner"), single("/etc/banner")),
    ]);
    let target = explicit_snapshot(vec![
        (s("Port"), single("2222")),
        (s("AllowUsers"), single("root")),
    ]);
    let d1 = base.compare(&target);
    let d2 = base.compare(&target);
    assert_eq!(d1.len(), d2.len());
    for i in 0..d1.len() {
        assert_eq!(d1[i].keyword, d2[i].keyword);
        assert_eq!(d1[i].kind, d2[i].kind);
        assert!(keyword_type_eq(&d1[i].entry.value, &d2[i].entry.value));
    }
    // sorted lexicographically: AllowUsers, Banner, Port
    let keys: Vec<&str> = d1.iter().map(|e| e.keyword.as_str()).collect();
    assert_eq!(keys, vec!["AllowUsers", "Banner", "Port"]);
    assert_eq!(d1[0].kind, UpdateKind::Add);
    assert_eq!(d1[1].kind, UpdateKind::Remove);
    assert_eq!(d1[2].kind, UpdateKind::Modify);
}

#[test]
fn apply_converges_to_desired() {
    let base = explicit_snapshot(vec![(s("Port"), single("22"))]);
    let target = explicit_snapshot(vec![
        (s("Port"), single("2222")),
        (s("PermitRootLogin"), KeywordType::Flag(false)),
    ]);
    let diff = base.compare(&target);
    let applied = base.update(&diff).expect("own diff must apply");
    let again = applied.compare(&target);
    assert_eq!(again.len(), 0);
}

#[test]
fn directive_text_round_trip() {
    let snap = explicit_snapshot(vec![
        (s("Port"), single("1234")),
        (s("Ciphers"), multi(&["aes128-ctr", "chacha20-poly1305"])),
        (s("PasswordAuthentication"), KeywordType::Flag(true)),
        (s("Banner"), KeywordType::Absent),
    ]);
    let text = sshdconfig::codec::encode_directive_text(&snap);
    assert_eq!(
        text,
        "Banner\nCiphers aes128-ctr,chacha20-poly1305\nPasswordAuthentication yes\nPort 1234\n"
    );
    let pairs = sshdconfig::codec::decode_directive_text(&text).expect("decodes");
    let back = ConfigData::build_from_pairs(&pairs, true).expect("rebuilds");
    for kw in ["Port", "Ciphers", "PasswordAuthentication", "Banner"] {
        let a = snap.find(kw).expect("present in original");
        let b = back.find(kw).expect("present after round trip");
        assert!(keyword_type_eq(&a.value, &b.value), "value changed for {kw}");
    }
}

#[test]
fn structured_round_trip() {
    let snap = explicit_snapshot(vec![
        (s("Port"), single("1234")),
        (s("Ciphers"), multi(&["aes128-ctr", "chacha20-poly1305"])),
        (s("PasswordAuthentication"), KeywordType::Flag(true)),
        (s("Banner"), KeywordType::Absent),
    ]);
    let doc = sshdconfig::json::export_json(&snap, &None).expect("encodes");
    assert_eq!(
        doc,
        "{\"Banner\":null,\"Ciphers\":\"aes128-ctr,chacha20-poly1305\",\"PasswordAuthentication\":\"yes\",\"Port\":\"1234\"}"
    );
    let pairs = sshdconfig::json::decode_json_text(&doc).expect("decodes");
    let back = ConfigData::build_from_pairs(&pairs, true).expect("rebuilds");
    for kw in ["Port", "Ciphers", "PasswordAuthentication", "Banner"] {
        let a = snap.find(kw).expect("present in original");
        let b = back.find(kw).expect("present after round trip");
        assert!(keyword_type_eq(&a.value, &b.value), "value changed for {kw}");
    }
}

#[test]
fn default_masking_then_remove() {
    // a keyword at its daemon default
    let base = ConfigData::seed_defaults(&vec![(s("PermitRootLogin"), KeywordType::Flag(false))])
        .expect("defaults seed");
    // declaring the same value explicitly is classified as no change
    let mut declared = ConfigData::seed_defaults(&vec![(
        s("PermitRootLogin"),
        KeywordType::Flag(false),
    )])
    .expect("defaults seed");
    declared
        .merge_explicit(&vec![(s("PermitRootLogin"), KeywordType::Flag(false))])
        .expect("same-shape declaration merges");
    assert_eq!(base.compare(&declared).len(), 0);
    // but the entry is now explicit
    assert!(!declared.find("PermitRootLogin").unwrap().is_default);
    // reverting it to the default afterwards is a real Remove, not a no-op
    let diff = declared.compare(&base);
    assert_eq!(diff.len(), 1);
    assert_eq!(diff[0].keyword, "PermitRootLogin");
    assert_eq!(diff[0].kind, UpdateKind::Remove);
}

#[test]
fn tamper_detection_blocks_every_operation() {
    let committed: Vec<u8> = b"Port 22\n".to_vec();
    let record = record_for(&committed);
    assert!(integrity_check(&record, &committed).is_ok());
    let edited: Vec<u8> = b"Port 2222\n".to_vec();
    assert_eq!(
        integrity_check(&record, &edited),
        Err(SshdConfigError::TamperedFile)
    );
    let current = explicit_snapshot(vec![(s("Port"), single("22"))]);
    let desired = explicit_snapshot(vec![(s("Port"), single("2222"))]);
    assert!(matches!(
        Invoke::get(&current, &None, &record, &edited),
        Err(SshdConfigError::TamperedFile)
    ));
    assert!(matches!(
        Invoke::set(&current, &desired, &record, &edited),
        Err(SshdConfigError::TamperedFile)
    ));
    assert!(matches!(
        Invoke::test(&current, &desired, &record, &edited),
        Err(SshdConfigError::TamperedFile)
    ));
}

#[test]
fn commit_is_atomic_under_midway_failure() {
    let original: Vec<u8> = b"Port 22\n".to_vec();
    let mut disk = DiskModel::start(original.clone());
    disk.write_temp(b"Port 2222\n".to_vec());
    // simulated failure here: after the temp write, before the rename
    assert_eq!(disk.managed, original);
    // the guard over the untouched managed file still passes on restart
    let record = record_for(&original);
    assert!(integrity_check(&record, &disk.managed).is_ok());
    // finishing the protocol installs the staged bytes whole
    disk.commit_rename();
    assert_eq!(disk.managed, b"Port 2222\n".to_vec());
    assert!(disk.temp.is_none());
}

#[test]
fn backup_is_created_at_most_once() {
    let mut disk = DiskModel::start(b"pristine\n".to_vec());
    disk.make_backup();
    assert_eq!(disk.backup.as_deref(), Some(b"pristine\n".as_slice()));
    disk.write_temp(b"changed\n".to_vec());
    disk.commit_rename();
    disk.make_backup();
    // the second commit never overwrites the pristine backup
    assert_eq!(disk.backup.as_deref(), Some(b"pristine\n".as_slice()));
}

#[test]
fn scenario_modify_password_authentication() {
    let current = explicit_snapshot(vec![(s("PasswordAuthentication"), KeywordType::Flag(true))]);
    let desired = explicit_snapshot(vec![(s("PasswordAuthentication"), KeywordType::Flag(false))]);
    let content: Vec<u8> = b"PasswordAuthentication yes\n".to_vec();
    let record = record_for(&content);
    let reports = Invoke::test(&current, &desired, &record, &content).expect("guard passes");
    assert_eq!(reports.len(), 1);
    let rp = &reports[0];
    assert_eq!(rp.keyword, "PasswordAuthentication");
    assert_eq!(rp.kind, UpdateKind::Modify);
    assert!(keyword_type_eq(rp.from.as_ref().unwrap(), &KeywordType::Flag(true)));
    assert!(keyword_type_eq(rp.to.as_ref().unwrap(), &KeywordType::Flag(false)));
}

#[test]
fn scenario_add_port_and_commit() {
    let current = ConfigData::new(); // all defaults
    let desired = explicit_snapshot(vec![(s("Port"), single("1234"))]);
    let content: Vec<u8> = Vec::new();
    let record = record_for(&content);
    let stage = Invoke::set(&current, &desired, &record, &content).expect("guard passes");
    let staged = match stage {
        SetStage::Staged(st) => st,
        SetStage::NoChange => panic!("a change was expected"),
    };
    assert_eq!(staged.ops.len(), 1);
    assert_eq!(staged.ops[0].keyword, "Port");
    assert_eq!(staged.ops[0].kind, UpdateKind::Add);
    assert_eq!(staged.candidate_text, "Port 1234\n");
    let plan = commit_plan(&staged, true, &record).expect("validator accepted");
    assert!(plan.make_backup, "exactly one backup is created, now");
    assert_eq!(plan.file_text, "Port 1234\n");
    assert!(plan.new_record.backup_exists);
    assert_eq!(
        plan.new_record.fingerprint,
        fingerprint(&plan.file_text.clone().into_bytes())
    );
    // applying the same desired state again is a true no-op
    let second = Invoke::set(
        &staged.reconciled,
        &desired,
        &plan.new_record,
        &plan.file_text.clone().into_bytes(),
    )
    .expect("guard passes");
    assert!(matches!(second, SetStage::NoChange));
}

#[test]
fn scenario_remove_port_reverts_to_default() {
    let current = explicit_snapshot(vec![(s("Port"), single("1234"))]);
    let desired = ConfigData::new(); // Port back to default
    let content: Vec<u8> = b"Port 1234\n".to_vec();
    let record = record_for(&content);
    let stage = Invoke::set(&current, &desired, &record, &content).expect("guard passes");
    let staged = match stage {
        SetStage::Staged(st) => st,
        SetStage::NoChange => panic!("a change was expected"),
    };
    assert_eq!(staged.ops.len(), 1);
    assert_eq!(staged.ops[0].keyword, "Port");
    assert_eq!(staged.ops[0].kind, UpdateKind::Remove);
    // the committed file no longer carries a Port line
    assert_eq!(staged.candidate_text, "");
    assert!(staged.reconciled.find("Port").is_none());
}

#[test]
fn scenario_validation_rejected_changes_nothing() {
    let current = explicit_snapshot(vec![(s("Port"), single("22"))]);
    let desired = explicit_snapshot(vec![(s("Port"), single("70000"))]);
    let content: Vec<u8> = b"Port 22\n".to_vec();
    let record = record_for(&content);
    let stage = Invoke::set(&current, &desired, &record, &content).expect("guard passes");
    let staged = match stage {
        SetStage::Staged(st) => st,
        SetStage::NoChange => panic!("a change was expected"),
    };
    let mut disk = DiskModel::start(content.clone());
    disk.write_temp(staged.candidate_text.clone().into_bytes());
    let verdict = commit_plan(&staged, false, &record);
    assert_eq!(verdict.unwrap_err(), SshdConfigError::ValidationRejected);
    disk.discard_temp();
    // managed file and backup unchanged, no reload happened
    assert_eq!(disk.managed, content);
    assert!(disk.backup.is_none());
}

#[test]
fn reload_failure_is_reported_distinctly() {
    assert!(finish_after_reload(true).is_ok());
    assert_eq!(
        finish_after_reload(false).unwrap_err(),
        SshdConfigError::ReloadFailed
    );
}

#[test]
fn multi_value_order_is_significant() {
    let a = multi(&["aes128-ctr", "chacha20-poly1305"]);
    let b = multi(&["chacha20-poly1305", "aes128-ctr"]);
    assert!(!keyword_type_eq(&a, &b));
    let base = explicit_snapshot(vec![(s("Ciphers"), multi(&["aes128-ctr", "chacha20-poly1305"]))]);
    let target = explicit_snapshot(vec![(s("Ciphers"), multi(&["chacha20-poly1305", "aes128-ctr"]))]);
    let diff = base.compare(&target);
    assert_eq!(diff.len(), 1);
    assert_eq!(diff[0].kind, UpdateKind::Modify);
}

#[test]
fn values_of_different_shapes_never_compare_equal() {
    assert!(!keyword_type_eq(&KeywordType::Flag(true), &single("yes")));
    assert!(!keyword_type_eq(&single("a"), &multi(&["a"])));
    assert!(!keyword_type_eq(&KeywordType::Absent, &single("")));
}

#[test]
fn empty_snapshot_encodes_to_empty_text_and_empty_document() {
    let snap = ConfigData::new();
    assert_eq!(sshdconfig::codec::encode_directive_text(&snap), "");
    assert_eq!(sshdconfig::json::export_json(&snap, &None).unwrap(), "{}");
    let pairs = sshdconfig::json::decode_json_text(&s("{}")).unwrap();
    assert!(pairs.is_empty());
}

#[test]
fn snapshot_keeps_its_managed_path() {
    let snap = ConfigData::new_at(s("/tmp/sshd_config.test"));
    assert_eq!(snap.filepath(), "/tmp/sshd_config.test");
    assert_eq!(ConfigData::new().filepath(), "/etc/ssh/sshd_config");
}
