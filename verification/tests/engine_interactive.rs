use tika::engine::{run_sync, search_docs, Engine};
use tika::interactive::{KeyInput, StepOutcome, TerminalApp};
use tika::pipeline::FileInput;
use tika::store::ChecksumStore;

fn file(path: &str, title: &str, body: &str) -> FileInput {
    FileInput {
        path: path.to_string(),
        content: Some(format!(
            "---\ntitle: {}\ndate: 2021-06-22T12:48:16-0400\ntags:\n- editors\n---\n{}\n",
            title, body
        )),
    }
}

fn corpus() -> Vec<FileInput> {
    vec![
        file("/kb/vim.md", "vim cheatsheet", "modal editing notes"),
        file("/kb/emacs.md", "emacs notes", "about the other editor"),
    ]
}

fn titles_for(engine: &Engine, query: &str) -> Vec<String> {
    match engine.search(&query.to_string(), 100) {
        Ok(hits) => hits.into_iter().map(|h| h.title).collect(),
        Err(_) => Vec::new(),
    }
}

#[test]
fn indexing_then_searching_finds_the_right_document() {
    let mut engine = Engine::create().unwrap();
    let (report, _store) = run_sync(&corpus(), ChecksumStore::new(), &mut engine).unwrap();
    assert_eq!(report.new_count, 2);
    let docs = search_docs(&engine, &"vim".to_string(), 100).unwrap();
    assert_eq!(docs.len(), 1);
    assert_eq!(docs[0].title, "vim cheatsheet");
    assert_eq!(docs[0].full_path, "/kb/vim.md");
    assert_eq!(docs[0].body, "");
    assert_eq!(docs[0].date, "2021-06-22T16:48:16Z");
    assert_eq!(docs[0].tags, vec!["editors".to_string()]);
}

#[test]
fn a_changed_file_has_one_record_after_the_second_commit() {
    let mut engine = Engine::create().unwrap();
    let (_report, store) = run_sync(&corpus(), ChecksumStore::new(), &mut engine).unwrap();
    let changed = vec![
        file("/kb/vim.md", "vim cheatsheet", "modal editing Notes"),
        file("/kb/emacs.md", "emacs notes", "about the other editor"),
    ];
    let (report2, _store2) = run_sync(&changed, store, &mut engine).unwrap();
    assert_eq!(report2.updated_count, 1);
    assert_eq!(report2.unchanged_count, 1);
    let docs = search_docs(&engine, &"cheatsheet".to_string(), 100).unwrap();
    assert_eq!(docs.len(), 1);
    assert_eq!(docs[0].full_path, "/kb/vim.md");
}

#[test]
fn a_bad_query_is_a_parse_failure_not_a_crash() {
    let mut engine = Engine::create().unwrap();
    let (_report, _store) = run_sync(&corpus(), ChecksumStore::new(), &mut engine).unwrap();
    let r = engine.search(&"title:\"unbalanced".to_string(), 100);
    assert!(r.is_err());
}

#[test]
fn typing_v_i_m_narrows_the_results_to_the_vim_note() {
    let mut engine = Engine::create().unwrap();
    let (_report, _store) = run_sync(&corpus(), ChecksumStore::new(), &mut engine).unwrap();
    let mut app = TerminalApp::default();
    for c in ['v', 'i', 'm'] {
        match app.step(KeyInput::Char(c)) {
            StepOutcome::Continue(requery) => {
                assert!(requery);
                let results = titles_for(&engine, &app.input);
                app.apply_results(results);
            }
            _ => panic!("typing must continue the loop"),
        }
    }
    assert_eq!(app.input, "vim");
    assert_eq!(app.matches, vec!["vim cheatsheet".to_string()]);
}

#[test]
fn arrow_down_on_an_empty_result_list_is_a_no_op() {
    let mut app = TerminalApp::default();
    match app.step(KeyInput::Down) {
        StepOutcome::Continue(requery) => assert!(!requery),
        _ => panic!("arrows continue the loop"),
    }
    assert_eq!(app.selected, None);
}

#[test]
fn enter_with_no_highlight_accepts_an_empty_selection() {
    let mut app = TerminalApp::default();
    app.apply_results(vec!["a".to_string(), "b".to_string()]);
    match app.step(KeyInput::Enter) {
        StepOutcome::Accepted(sel) => assert!(sel.is_empty()),
        _ => panic!("enter accepts"),
    }
}

#[test]
fn arrows_wrap_and_enter_returns_the_highlight() {
    let mut app = TerminalApp::default();
    app.apply_results(vec!["a".to_string(), "b".to_string(), "c".to_string()]);
    app.step(KeyInput::Down);
    assert_eq!(app.selected, Some(0));
    app.step(KeyInput::Down);
    assert_eq!(app.selected, Some(1));
    app.step(KeyInput::Up);
    assert_eq!(app.selected, Some(0));
    app.step(KeyInput::Up);
    assert_eq!(app.selected, Some(2));
    match app.step(KeyInput::Enter) {
        StepOutcome::Accepted(sel) => assert_eq!(sel, vec!["c".to_string()]),
        _ => panic!("enter accepts"),
    }
}

#[test]
fn backspace_edits_the_buffer_and_interrupt_cancels() {
    let mut app = TerminalApp::default();
    app.step(KeyInput::Char('a'));
    app.step(KeyInput::Char('b'));
    app.step(KeyInput::Backspace);
    assert_eq!(app.input, "a");
    app.step(KeyInput::Backspace);
    app.step(KeyInput::Backspace);
    assert_eq!(app.input, "");
    assert!(matches!(app.step(KeyInput::CtrlC), StepOutcome::Cancelled));
}

#[test]
fn stale_highlights_are_dropped_on_new_results() {
    let mut app = TerminalApp::default();
    app.apply_results(vec!["a".to_string(), "b".to_string()]);
    app.step(KeyInput::Down);
    app.step(KeyInput::Down);
    assert_eq!(app.selected, Some(1));
    // a failing query during live typing degrades to no results
    app.apply_results(Vec::new());
    assert_eq!(app.selected, None);
    assert!(app.matches.is_empty());
}
