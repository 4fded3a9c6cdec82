use os_dev_specs::index::{
    first_word_of, fresh_index, gen_index_text, index_diff, index_up_to_date, parse_index,
    pdf_file_name, FileIndex,
};
use os_dev_specs::model::{Reference, ReferenceSourceInfo};
use os_dev_specs::report::{diff_action, diff_line, status_line, verification_result, DiffAction};
use os_dev_specs::text::split_words;
use os_dev_specs::watch::{watch_action, FsEvent, WatchAction};

fn reference(id: &str) -> Reference {
    Reference {
        id: id.to_string(),
        source: ReferenceSourceInfo::Pdf { title: "T".to_string(), url: "u".to_string() },
        entries: vec![],
    }
}

#[test]
fn words_and_first_word() {
    assert_eq!(split_words("  ab\tc \n d  "), vec!["ab", "c", "d"]);
    assert!(split_words(" \u{2003} ").is_empty());
    assert_eq!(first_word_of("da39a3ee  spec/x.pdf\n"), "da39a3ee");
    assert_eq!(first_word_of(""), "");
}

#[test]
fn stored_index_reading() {
    let idx = parse_index("h1  a.pdf\nbad\nh2 b.pdf extra\r\nh3 a.pdf\n");
    assert_eq!(idx.len(), 2);
    assert_eq!(idx.get("a.pdf").map(|s| s.as_str()), Some("h3"));
    assert_eq!(idx.get("b.pdf").map(|s| s.as_str()), Some("h2"));
    assert_eq!(idx.get("bad"), None);
    assert_eq!(parse_index("").len(), 0);
}

#[test]
fn fresh_index_and_text() {
    let refs = vec![reference("a"), reference("b"), reference("a")];
    let outputs = vec![Some("111  spec_tmp/a.pdf\n".to_string()), None, Some("333 x".to_string())];
    let idx = fresh_index(&refs, &outputs);
    assert_eq!(idx.len(), 2);
    assert_eq!(idx.get("a.pdf").map(|s| s.as_str()), Some("333"));
    assert_eq!(idx.get("b.pdf").map(|s| s.as_str()), Some("?"));
    assert_eq!(gen_index_text(&idx), "333  a.pdf\n?  b.pdf");
    assert_eq!(pdf_file_name("x_1"), "x_1.pdf");
}

#[test]
fn index_round_trip() {
    let mut idx = FileIndex::new();
    idx.insert("b.pdf".to_string(), "222".to_string());
    idx.insert("a.pdf".to_string(), "111".to_string());
    idx.insert("b.pdf".to_string(), "999".to_string());
    let text = gen_index_text(&idx);
    assert_eq!(text, "999  b.pdf\n111  a.pdf");
    let back = parse_index(&text);
    assert!(index_up_to_date(&back, &idx));
    assert!(index_up_to_date(&idx, &back));
}

#[test]
fn up_to_date_and_diff() {
    let old = parse_index("1 a.pdf\n2 b.pdf\n3 c.pdf\n");
    let new = parse_index("1 a.pdf\n9 b.pdf\n? d.pdf\n5 e.pdf\n");
    assert!(!index_up_to_date(&old, &new));
    assert!(index_up_to_date(&old, &parse_index("3 c.pdf\n1 a.pdf\n2 b.pdf")));
    assert!(!index_up_to_date(&old, &parse_index("1 a.pdf\n2 b.pdf")));
    assert!(!index_up_to_date(&parse_index("1 a.pdf"), &parse_index("1 a.pdf\n2 b.pdf")));
    let diff = index_diff(&old, &new);
    let names: Vec<&str> = diff.iter().map(|d| d.filename.as_str()).collect();
    assert_eq!(names, vec!["a.pdf", "b.pdf", "c.pdf", "d.pdf", "e.pdf"]);
    let actions: Vec<DiffAction> = diff.iter().map(|d| diff_action(d)).collect();
    assert_eq!(
        actions,
        vec![
            DiffAction::Unchanged,
            DiffAction::Changed,
            DiffAction::Removed,
            DiffAction::NotDownloaded,
            DiffAction::Added
        ]
    );
    assert_eq!(diff[1].old_hash.as_deref(), Some("2"));
    assert_eq!(diff[1].new_hash.as_deref(), Some("9"));
}

#[test]
fn report_lines() {
    assert_eq!(
        status_line("a.pdf", true, false, true),
        "a.pdf                            found: true is_pdf: false hash_matched: true"
    );
    let long = "x".repeat(40);
    assert_eq!(
        status_line(&long, false, false, false),
        format!("{} found: false is_pdf: false hash_matched: false", long)
    );
    let check = verification_result(
        "b.pdf".to_string(),
        Some(("b.pdf: PDF document, version 1.4\n", "abc  b.pdf\n")),
        "abc",
    );
    assert!(check.found && check.is_pdf && check.hash_matched);
    assert_eq!(
        diff_line(DiffAction::Changed, "b.pdf", Some(&check)).unwrap(),
        "~ b.pdf                            <downloaded> is_pdf: true hash_matched: true"
    );
    assert_eq!(
        diff_line(DiffAction::Added, "b.pdf", Some(&check)).unwrap(),
        "+ b.pdf                            <downloaded> is_pdf: true hash_matched: true"
    );
    assert_eq!(
        diff_line(DiffAction::NotDownloaded, "d.pdf", None).unwrap(),
        "+ d.pdf                            found: false is_pdf: false hash_matched: false"
    );
    assert_eq!(
        diff_line(DiffAction::Removed, "c.pdf", None).unwrap(),
        "- c.pdf                            found: true is_pdf: true hash_matched: true"
    );
    assert_eq!(diff_line(DiffAction::Unchanged, "a.pdf", None), None);
}

#[test]
fn verification_results() {
    let missing = verification_result("m.pdf".to_string(), None, "abc");
    assert_eq!(missing.filename, "m.pdf");
    assert!(!missing.found && !missing.is_pdf && !missing.hash_matched);
    let other = verification_result("z.pdf".to_string(), Some(("z.pdf: Zip archive data", "")), "abc");
    assert!(other.found && !other.is_pdf && !other.hash_matched);
    let empty = verification_result("e.pdf".to_string(), Some(("PDF document", "")), "");
    assert!(empty.is_pdf && empty.hash_matched);
}

#[test]
fn watch_decisions() {
    assert_eq!(watch_action(FsEvent::Write, true, 5000), WatchAction::Rebuild);
    assert_eq!(watch_action(FsEvent::Rename, true, 2000), WatchAction::Rebuild);
    assert_eq!(watch_action(FsEvent::Create, true, 1999), WatchAction::TooSoon);
    assert_eq!(watch_action(FsEvent::Chmod, false, 5000), WatchAction::Ignore);
    assert_eq!(watch_action(FsEvent::Other, true, 5000), WatchAction::Ignore);
}
