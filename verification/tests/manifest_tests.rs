use riptidekv::manifest::{same_text, Manifest, ManifestError, SstMeta};

type Result<T> = std::result::Result<T, ManifestError>;

#[test]
fn create_empty_manifest() -> Result<()> {
    let m = Manifest::load_or_create(None)?;
    assert!(m.entries.is_empty());
    assert!(m.l0_filenames().is_empty());
    assert!(m.l1_filenames().is_empty());
    Ok(())
}

#[test]
fn save_and_reload() -> Result<()> {
    let mut m = Manifest::load_or_create(None)?;
    m.add("sst-001.sst".to_string(), 0);
    m.add("sst-002.sst".to_string(), 0);
    m.add("sst-003.sst".to_string(), 1);
    let saved = m.save();

    let m2 = Manifest::load_or_create(Some(&saved))?;
    assert_eq!(m2.l0_filenames(), vec!["sst-002.sst", "sst-001.sst"]);
    assert_eq!(m2.l1_filenames(), vec!["sst-003.sst"]);
    Ok(())
}

#[test]
fn remove_files() -> Result<()> {
    let mut m = Manifest::load_or_create(None)?;
    m.add("a.sst".to_string(), 0);
    m.add("b.sst".to_string(), 0);
    m.add("c.sst".to_string(), 1);
    m.remove_files(&["a.sst", "c.sst"]);
    assert_eq!(m.entries.len(), 1);
    assert_eq!(m.entries[0].filename, "b.sst");
    Ok(())
}

#[test]
fn replace_all_with_l1() -> Result<()> {
    let mut m = Manifest::load_or_create(None)?;
    m.add("old1.sst".to_string(), 0);
    m.add("old2.sst".to_string(), 1);
    m.replace_all_with_l1("merged.sst".to_string());
    assert_eq!(m.entries.len(), 1);
    assert_eq!(m.entries[0].filename, "merged.sst");
    assert_eq!(m.entries[0].level, 1);
    Ok(())
}

#[test]
fn comments_and_blank_lines_ignored() -> Result<()> {
    let m = Manifest::load_or_create(Some(
        "# comment\n\nL0:a.sst\n\n# another comment\nL1:b.sst\n",
    ))?;
    assert_eq!(m.l0_filenames(), vec!["a.sst"]);
    assert_eq!(m.l1_filenames(), vec!["b.sst"]);
    Ok(())
}

#[test]
fn invalid_format_returns_error() {
    let result = Manifest::load_or_create(Some("bad-line-no-colon\n"));
    assert!(result.is_err());
    assert_eq!(result.err(), Some(ManifestError::InvalidFormat { line: 1 }));
}

#[test]
fn unknown_level_returns_error() {
    let result = Manifest::load_or_create(Some("L9:file.sst\n"));
    assert!(result.is_err());
    assert_eq!(result.err(), Some(ManifestError::UnknownLevel { line: 1 }));
}

// -------------------- The text format --------------------

fn meta(filename: &str, level: u32) -> SstMeta {
    SstMeta {
        filename: filename.to_string(),
        level,
    }
}

#[test]
fn saved_text_is_exact() {
    let mut m = Manifest::new();
    assert_eq!(
        m.save(),
        "# RiptideKV SSTable Manifest\n# Format: <level>:<filename>\n"
    );
    m.add("one.sst".to_string(), 0);
    m.add("two.sst".to_string(), 1);
    m.add("three.sst".to_string(), 0);
    assert_eq!(
        m.save(),
        "# RiptideKV SSTable Manifest\n# Format: <level>:<filename>\nL0:three.sst\nL0:one.sst\nL1:two.sst\n"
    );
}

#[test]
fn add_goes_in_front_of_its_level() {
    let mut m = Manifest::new();
    m.add("a".to_string(), 1);
    m.add("b".to_string(), 1);
    assert_eq!(m.entries, vec![meta("b", 1), meta("a", 1)]);
    // A level without entries yet goes to the end.
    m.add("c".to_string(), 0);
    assert_eq!(m.entries, vec![meta("b", 1), meta("a", 1), meta("c", 0)]);
    m.add("d".to_string(), 0);
    assert_eq!(
        m.entries,
        vec![meta("b", 1), meta("a", 1), meta("d", 0), meta("c", 0)]
    );
    m.add("e".to_string(), 7);
    assert_eq!(m.entries.len(), 5);
    assert_eq!(m.entries[4], meta("e", 7));
    assert_eq!(m.l0_filenames(), vec!["d", "c"]);
    assert_eq!(m.l1_filenames(), vec!["b", "a"]);
}

#[test]
fn lines_are_trimmed_and_split_at_the_first_colon() {
    let m = Manifest::load_or_create(Some(
        "  \t L0:a:b.sst \r\n\u{a0}L1: spaced.sst\u{3000}\n   # indented comment\n\r\nL0:\nL1:last",
    ))
    .unwrap();
    assert_eq!(
        m.entries,
        vec![
            meta("a:b.sst", 0),
            meta(" spaced.sst", 1),
            meta("", 0),
            meta("last", 1)
        ]
    );
}

#[test]
fn errors_carry_the_line_number() {
    assert_eq!(
        Manifest::load_or_create(Some("# head\n\nL0:ok.sst\nnothing here\nL9:x\n")).err(),
        Some(ManifestError::InvalidFormat { line: 4 })
    );
    assert_eq!(
        Manifest::load_or_create(Some("L0:ok.sst\nL1:ok.sst\nl0:lower.sst")).err(),
        Some(ManifestError::UnknownLevel { line: 3 })
    );
    assert_eq!(
        Manifest::load_or_create(Some("L0 :x")).err(),
        Some(ManifestError::UnknownLevel { line: 1 })
    );
    assert_eq!(
        Manifest::load_or_create(Some(":x")).err(),
        Some(ManifestError::UnknownLevel { line: 1 })
    );
    assert_eq!(
        ManifestError::InvalidFormat { line: 12 }.to_string(),
        "manifest line 12: invalid format (expected 'L<n>:<filename>')"
    );
    assert_eq!(
        ManifestError::UnknownLevel { line: 3 }.to_string(),
        "manifest line 3: unknown level (expected L0 or L1)"
    );
}

#[test]
fn empty_and_blank_texts_hold_no_entry() {
    assert!(Manifest::load_or_create(Some("")).unwrap().entries.is_empty());
    assert!(Manifest::load_or_create(Some("\n\n  \n")).unwrap().entries.is_empty());
    assert!(Manifest::load_or_create(Some("#L0:a.sst")).unwrap().entries.is_empty());
}

#[test]
fn unicode_file_names_survive() {
    let mut m = Manifest::new();
    m.add("größe-日本.sst".to_string(), 0);
    m.add("plain.sst".to_string(), 1);
    let back = Manifest::load_or_create(Some(&m.save())).unwrap();
    assert_eq!(back.entries, m.entries);
}

#[test]
fn remove_files_keeps_the_order_of_the_rest() {
    let mut m = Manifest::new();
    for (name, level) in [("a", 0), ("b", 1), ("c", 0), ("a", 1), ("d", 1)] {
        m.entries.push(meta(name, level));
    }
    m.remove_files(&["a", "zzz"]);
    assert_eq!(m.entries, vec![meta("b", 1), meta("c", 0), meta("d", 1)]);
    m.remove_files(&[]);
    assert_eq!(m.entries.len(), 3);
}

#[test]
fn texts_are_compared_by_their_characters() {
    assert!(same_text("sst-1.sst", "sst-1.sst"));
    assert!(!same_text("sst-1.sst", "sst-2.sst"));
    assert!(!same_text("a", "ab"));
    assert!(same_text("", ""));
    assert!(same_text("é", "\u{e9}"));
}
