use tika::document::FieldName;
use tika::pipeline::{sync_plan, FileInput, IndexOp, SyncError};
use tika::store::ChecksumStore;

fn file(path: &str, content: &str) -> FileInput {
    FileInput {
        path: path.to_string(),
        content: Some(content.to_string()),
    }
}

fn note(title: &str, body: &str) -> String {
    format!(
        "---\ntitle: {}\ndate: 2021-06-22T12:48:16-0400\ntags:\n- tika\n---\n{}\n",
        title, body
    )
}

#[test]
fn a_first_run_adds_every_file_and_commits_once() {
    let files = vec![
        file("/kb/a.md", &note("alpha", "a body")),
        file("/kb/b.md", &note("beta", "b body")),
    ];
    let (ops, report, _store) = sync_plan(&files, ChecksumStore::new());
    assert_eq!(report.new_count, 2);
    assert_eq!(report.updated_count, 0);
    assert_eq!(report.unchanged_count, 0);
    assert_eq!(report.failed_count, 0);
    assert_eq!(ops.len(), 3);
    assert!(matches!(ops[0], IndexOp::Add(_)));
    assert!(matches!(ops[1], IndexOp::Add(_)));
    assert!(matches!(ops[2], IndexOp::Commit));
    let commits = ops
        .iter()
        .filter(|o| matches!(o, IndexOp::Commit))
        .count();
    assert_eq!(commits, 1);
}

#[test]
fn rerunning_an_unchanged_corpus_changes_nothing() {
    let files = vec![
        file("/kb/a.md", &note("alpha", "a body")),
        file("/kb/b.md", &note("beta", "b body")),
    ];
    let (_ops, _report, store) = sync_plan(&files, ChecksumStore::new());
    let (ops2, report2, _store2) = sync_plan(&files, store);
    assert_eq!(report2.new_count, 0);
    assert_eq!(report2.updated_count, 0);
    assert_eq!(report2.unchanged_count, 2);
    assert_eq!(report2.failed_count, 0);
    assert_eq!(ops2.len(), 1);
    assert!(matches!(ops2[0], IndexOp::Commit));
}

#[test]
fn one_changed_byte_updates_exactly_that_file() {
    let files = vec![
        file("/kb/a.md", &note("alpha", "a body")),
        file("/kb/b.md", &note("beta", "b body")),
    ];
    let (_ops, _report, store) = sync_plan(&files, ChecksumStore::new());
    let changed = vec![
        file("/kb/a.md", &note("alpha", "a bodY")),
        file("/kb/b.md", &note("beta", "b body")),
    ];
    let (ops2, report2, _store2) = sync_plan(&changed, store);
    assert_eq!(report2.updated_count, 1);
    assert_eq!(report2.unchanged_count, 1);
    assert_eq!(report2.new_count, 0);
    assert_eq!(report2.failed_count, 0);
    // delete the old version of that path, add the new one, commit
    assert_eq!(ops2.len(), 3);
    match &ops2[0] {
        IndexOp::DeleteByPath(p) => assert_eq!(p, "/kb/a.md"),
        _ => panic!("expected a delete first"),
    }
    match &ops2[1] {
        IndexOp::Add(d) => {
            assert_eq!(d.full_path, "/kb/a.md");
            assert_eq!(d.body, "a bodY");
        }
        _ => panic!("expected the add second"),
    }
    assert!(matches!(ops2[2], IndexOp::Commit));
}

#[test]
fn a_file_missing_its_title_is_skipped_and_reported() {
    let bad = "---\ndate: 2021-06-22T12:48:16-0400\ntags: x\n---\nbody\n";
    let files = vec![
        file("/kb/good.md", &note("fine", "ok")),
        file("/kb/bad.md", bad),
    ];
    let (ops, report, _store) = sync_plan(&files, ChecksumStore::new());
    assert_eq!(report.failed_count, 1);
    assert_eq!(report.new_count, 1);
    assert_eq!(report.failures.len(), 1);
    assert_eq!(report.failures[0].0, "/kb/bad.md");
    assert_eq!(
        report.failures[0].1,
        SyncError::MissingField(FieldName::Title)
    );
    // nothing staged under the failed path
    for op in &ops {
        match op {
            IndexOp::Add(d) => assert_ne!(d.full_path, "/kb/bad.md"),
            IndexOp::DeleteByPath(p) => assert_ne!(p, "/kb/bad.md"),
            IndexOp::Commit => {}
        }
    }
}

#[test]
fn unreadable_and_undated_files_are_reported() {
    let files = vec![
        FileInput {
            path: "/kb/gone.md".to_string(),
            content: None,
        },
        file("/kb/baddate.md", "---\ntitle: t\ndate: tomorrow\ntags: x\n---\n"),
        file("/kb/nofm.md", "plain text\n"),
    ];
    let (_ops, report, _store) = sync_plan(&files, ChecksumStore::new());
    assert_eq!(report.failed_count, 3);
    assert_eq!(report.failures[0].1, SyncError::Unreadable);
    assert_eq!(report.failures[1].1, SyncError::BadDate);
    assert_eq!(report.failures[2].1, SyncError::NoFrontMatter);
}

#[test]
fn a_date_the_engine_cannot_store_is_reported() {
    // valid in form, but beyond the engine's representable instant range
    let far = "---\ntitle: t\ndate: 2500-01-01T00:00:00Z\ntags: x\n---\n";
    let files = vec![file("/kb/far.md", far)];
    let (_ops, report, _store) = sync_plan(&files, ChecksumStore::new());
    assert_eq!(report.failed_count, 1);
    assert_eq!(report.failures[0].1, SyncError::BadDate);
}

#[test]
fn an_unindexable_path_is_reported() {
    // a path longer than the engine indexes as one term can never be
    // replaced or deleted, so the file is skipped and recorded
    let long_path = format!("/kb/{}.md", "x".repeat(66000));
    let files = vec![file(&long_path, &note("fine", "ok"))];
    let (ops, report, _store) = sync_plan(&files, ChecksumStore::new());
    assert_eq!(report.failed_count, 1);
    assert_eq!(report.failures[0].1, SyncError::PathTooLong);
    assert_eq!(ops.len(), 1);
    assert!(matches!(ops[0], IndexOp::Commit));
}

#[test]
fn a_nested_tags_value_is_reported() {
    let bad = "---\ntitle: t\ndate: 2021-06-22T12:48:16-0400\ntags:\n  deep: x\n---\n";
    let files = vec![file("/kb/bad.md", bad)];
    let (_ops, report, _store) = sync_plan(&files, ChecksumStore::new());
    assert_eq!(report.failed_count, 1);
    assert_eq!(report.failures[0].1, SyncError::BadTags);
}

#[test]
fn the_filename_defaults_to_the_path_base_name() {
    let files = vec![file("/kb/deep/note.md", &note("named", "x"))];
    let (ops, _report, _store) = sync_plan(&files, ChecksumStore::new());
    match &ops[0] {
        IndexOp::Add(d) => {
            assert_eq!(d.filename, "note.md");
            assert_eq!(d.date_epoch, 1624380496);
            assert_eq!(d.tags, vec!["tika".to_string()]);
        }
        _ => panic!("expected an add"),
    }
}
